//! An honest opening of a foldable code is accepted.
use vstd::prelude::*;
use crate::algebra::{
    canonical, cong, lemma_canonical_unique, lemma_cancel_invertible, lemma_cong_add,
    lemma_cong_mod, lemma_cong_mul, lemma_cong_sub, lemma_mod_canonical, lemma_mod_small,
    lemma_two_to_positive, two_to,
};
use crate::basefold::{
    encode, fold_codeword, is_weight, law_encode_linear, law_fold_codeword, lemma_encode_canonical,
    table_entry,
};
use crate::basefold_batch::{
    Answer, Folding, Opened, check_batch, check_folds, codeword_root, column_pair_digest, combine,
    fold_holds, fold_point, fold_rounds, fold_shape, folds_hold, folds_to, is_quotient, open_batch,
    opened_codewords, pairs_at, paths_hold, query_indices, quotient, read_answer, read_answers,
    read_folds, round_pair, send_folds, send_queries, send_query, strided,
};
use crate::bits::{lemma_log2_two_to, lemma_reversed_bound, reversed};
use crate::combiners::{lemma_pair_comb, pair_comb};
use crate::field::PrimeField;
use crate::hash::{HashFunction, Output, digest_elements};
use crate::indices::index_of;
use crate::merkle::{
    ancestor, column, column_digests, column_tree, element_tree, law_path_complete,
    lemma_ancestor_bound, level_above, pair_digests, path_holds, tree_path,
};
use crate::multilinear::{
    basis, bind, bind_all, eq_points, eq_prod, fold_all, lemma_bind_basis,
};
use crate::rounds::{
    Claiming, Proving, Shape, all_canonical, check_round, check_rounds, law_sum_check_complete,
    lemma_prove_rounds_shape, prove_round, prove_rounds, row, total, uniform,
};
use crate::sums::{dot, lemma_sum_ext, lemma_sum_step, sum_of};
use crate::transcript::{
    Check, Event, Oracle, Tx, challenges, extends, law_read_all_committed, law_read_all_written,
    law_read_committed, law_same_challenges, lemma_commit_all_extends, lemma_prefix_push,
    lemma_prefix_trans, lemma_write_all_extends, synced,
};

verus! {

/// The weighted sum of the first `t` of several vectors.
pub open spec fn combine_first(p: int, rc: Seq<int>, vs: Seq<Seq<int>>, n: nat, t: nat) -> Seq<int> {
    Seq::new(n, |j: int| sum_of(t, |i: int| rc[i] * vs[i][j]) % p)
}

proof fn lemma_combine_canonical(p: int, rc: Seq<int>, vs: Seq<Seq<int>>, n: nat)
    requires
        p > 0,
    ensures
        canonical(p, combine(p, rc, vs, n)),
        combine(p, rc, vs, n).len() == n,
{
    let c = combine(p, rc, vs, n);
    assert forall|j: int| 0 <= j < n implies 0 <= #[trigger] c[j] < p by {
        lemma_mod_canonical(p, sum_of(vs.len(), |i: int| rc[i] * vs[i][j]));
    }
}

proof fn lemma_encode_first(
    p: int,
    table: Seq<Seq<int>>,
    log_rate: nat,
    rc: Seq<int>,
    ms: Seq<Seq<int>>,
    k: nat,
    t: nat,
)
    requires
        p > 0,
        t <= ms.len(),
        uniform(ms, two_to(k)),
    ensures
        ({
            let e = encode(p, table, log_rate, combine_first(p, rc, ms, two_to(k), t));
            let f = |j: int| sum_of(t, |i: int| rc[i] * encode(p, table, log_rate, ms[i])[j]);
            &&& e.len() == two_to(log_rate + k)
            &&& forall|j: int| 0 <= j < e.len() ==> cong(p, #[trigger] e[j], f(j))
        }),
    decreases t,
{
    let c = combine_first(p, rc, ms, two_to(k), t);
    let e = encode(p, table, log_rate, c);
    let f = |j: int| sum_of(t, |i: int| rc[i] * encode(p, table, log_rate, ms[i])[j]);
    if t == 0 {
        assert forall|i: int| 0 <= i < c.len() implies cong(p, #[trigger] c[i], c[i] + 1 * c[i]) by {
            lemma_sum_step(0, |j: int| rc[j] * ms[j][i]);
            lemma_mod_small(p, 0);
        }
        law_encode_linear(p, table, log_rate, c, c, c, 1, k);
        assert forall|j: int| 0 <= j < e.len() implies cong(p, #[trigger] e[j], f(j)) by {
            lemma_sum_step(0, |i: int| rc[i] * encode(p, table, log_rate, ms[i])[j]);
            assert(cong(p, e[j], e[j] + 1 * e[j]));
            assert(1 * e[j] == e[j]);
            lemma_cong_sub(p, e[j] + e[j], e[j], e[j], e[j]);
        }
    } else {
        let u = (t - 1) as nat;
        lemma_encode_first(p, table, log_rate, rc, ms, k, u);
        let a = combine_first(p, rc, ms, two_to(k), u);
        let b = ms[u as int];
        let r = rc[u as int];
        assert(b.len() == two_to(k));
        assert forall|i: int| 0 <= i < c.len() implies cong(p, #[trigger] c[i], a[i] + r * b[i]) by {
            let g = |j: int| rc[j] * ms[j][i];
            lemma_sum_step(u, g);
            lemma_cong_mod(p, sum_of(t, g));
            lemma_cong_mod(p, sum_of(u, g));
            lemma_cong_add(p, a[i], sum_of(u, g), r * b[i], r * b[i]);
        }
        law_encode_linear(p, table, log_rate, a, b, c, r, k);
        let ea = encode(p, table, log_rate, a);
        let eb = encode(p, table, log_rate, b);
        assert forall|j: int| 0 <= j < e.len() implies cong(p, #[trigger] e[j], f(j)) by {
            let g = |i: int| rc[i] * encode(p, table, log_rate, ms[i])[j];
            lemma_sum_step(u, g);
            assert(cong(p, e[j], ea[j] + r * eb[j]));
            assert(cong(p, ea[j], sum_of(u, g)));
            lemma_cong_add(p, ea[j], sum_of(u, g), r * eb[j], r * eb[j]);
        }
    }
}

/// The weighted sum of codewords is the codeword of the weighted sum.
pub proof fn law_encode_combination(
    p: int,
    table: Seq<Seq<int>>,
    log_rate: nat,
    rc: Seq<int>,
    ms: Seq<Seq<int>>,
    cws: Seq<Seq<int>>,
    k: nat,
)
    requires
        p > 0,
        uniform(ms, two_to(k)),
        cws.len() == ms.len(),
        forall|i: int|
            0 <= i < ms.len() ==> #[trigger] cws[i] == encode(p, table, log_rate, ms[i]),
    ensures
        combine(p, rc, cws, two_to(log_rate + k)) == encode(
            p,
            table,
            log_rate,
            combine(p, rc, ms, two_to(k)),
        ),
{
    let n = ms.len();
    let c = combine(p, rc, ms, two_to(k));
    lemma_encode_first(p, table, log_rate, rc, ms, k, n);
    assert(c =~= combine_first(p, rc, ms, two_to(k), n));
    let e = encode(p, table, log_rate, c);
    let d = combine(p, rc, cws, two_to(log_rate + k));
    lemma_combine_canonical(p, rc, ms, two_to(k));
    lemma_combine_canonical(p, rc, cws, two_to(log_rate + k));
    lemma_two_to_positive(k);
    lemma_encode_canonical(p, table, log_rate, c);
    assert forall|j: int| 0 <= j < e.len() implies e[j] == d[j] by {
        let f = |i: int| rc[i] * encode(p, table, log_rate, ms[i])[j];
        let g = |i: int| rc[i] * cws[i][j];
        lemma_sum_ext(n, f, g);
        assert(cong(p, e[j], sum_of(n, f)));
        lemma_cong_mod(p, sum_of(n, g));
        assert(0 <= e[j] < p);
        assert(0 <= d[j] < p);
        lemma_canonical_unique(p, e[j], d[j]);
    }
    assert(e =~= d);
}

/// The table and the weights by which codewords are folded belong together.
pub open spec fn weights_fit(
    p: int,
    table: Seq<Seq<int>>,
    xs: Seq<Seq<int>>,
    ws: Seq<Seq<int>>,
    levels: nat,
) -> bool {
    &&& xs.len() == levels
    &&& ws.len() == levels
    &&& forall|l: int|
        0 <= l < levels ==> (#[trigger] xs[l]).len() == two_to(l as nat) && ws[l].len() == two_to(
            l as nat,
        )
    &&& forall|l: int, q: int|
        #![trigger xs[l][q]]
        0 <= l < levels && 0 <= q < two_to(l as nat) ==> xs[l][q] == table[l][reversed(
            q as nat,
            l as nat,
        ) as int] && xs[l][q] != 0 && is_weight(p, xs[l][q], ws[l][q])
}

/// A single round of the prover, whatever the challenges before it.
proof fn lemma_prove_one(sh: Shape, comb: crate::rounds::Comb, tx: Tx, point: Seq<int>, ts: Seq<Seq<int>>)
    ensures
        ({
            let t = prove_round(sh, comb, Proving { tx, point, tables: ts });
            let u = prove_rounds(sh, comb, tx, ts, 1);
            &&& t.tx == u.tx
            &&& t.tables == u.tables
            &&& u.point.len() == 1
            &&& t.point == point.push(u.point[0])
        }),
{
    let s0 = prove_rounds(sh, comb, tx, ts, 0);
    assert(s0 == (Proving { tx, point: Seq::empty(), tables: ts }));
    assert(prove_rounds(sh, comb, tx, ts, 1) == prove_round(sh, comb, s0));
}

proof fn lemma_check_one(sh: Shape, check: Check, claim: int, point: Seq<int>)
    ensures
        ({
            let t = check_round(sh, Claiming { check, claim, point });
            let u = check_rounds(sh, check, claim, 1);
            &&& t.check == u.check
            &&& t.claim == u.claim
            &&& u.point.len() == 1
            &&& t.point == point.push(u.point[0])
        }),
{
    let s0 = check_rounds(sh, check, claim, 0);
    assert(s0 == (Claiming { check, claim, point: Seq::empty() }));
    assert(check_rounds(sh, check, claim, 1) == check_round(sh, s0));
}

/// The invariant of the folding.
pub open spec fn folding_fits(
    p: int,
    table: Seq<Seq<int>>,
    log_rate: nat,
    start: Seq<Seq<int>>,
    f: Folding,
    num_vars: nat,
    k: nat,
) -> bool {
    &&& f.point.len() == k
    &&& canonical(p, f.point)
    &&& f.tables == bind_all(p, start, f.point)
    &&& f.tables.len() == 2
    &&& uniform(f.tables, two_to((num_vars - k) as nat))
    &&& all_canonical(p, f.tables)
    &&& f.codewords.len() == k + 1
    &&& f.codewords[k as int] == encode(p, table, log_rate, f.tables[1])
}

proof fn lemma_folding(
    p: int,
    ch: Oracle,
    table: Seq<Seq<int>>,
    log_rate: nat,
    f: Folding,
    start: Seq<Seq<int>>,
    xs: Seq<Seq<int>>,
    ws: Seq<Seq<int>>,
    num_vars: nat,
    k: nat,
    r: int,
    t: Proving,
)
    requires
        p > 6,
        weights_fit(p, table, xs, ws, num_vars + log_rate),
        k < num_vars,
        folding_fits(p, table, log_rate, start, f, num_vars, k),
        t.tables == fold_all(p, f.tables, r),
        t.point == f.point.push(r),
        0 <= r < p,
    ensures
        ({
            let level = xs.len() - (k + 1);
            let next = fold_codeword(p, xs[level], ws[level], f.codewords.last(), r);
            folding_fits(
                p,
                table,
                log_rate,
                start,
                Folding {
                    tx: t.tx,
                    point: t.point,
                    tables: t.tables,
                    codewords: f.codewords.push(next),
                },
                num_vars,
                k + 1,
            )
        }),
{
    let level = xs.len() - (k + 1);
    let j = (num_vars - k - 1) as nat;
    let m = f.tables[1];
    assert(m.len() == two_to(j + 1));
    assert(two_to(j + 1) == 2 * two_to(j));
    assert(level == log_rate + j);
    assert(xs[level].len() == two_to(level as nat));
    assert forall|q: int| 0 <= q < xs[level].len() implies #[trigger] xs[level][q] == table[(log_rate + j) as int][reversed(
        q as nat,
        log_rate + j,
    ) as int] && xs[level][q] != 0 && is_weight(p, xs[level][q], ws[level][q]) by {}
    law_fold_codeword(p, table, log_rate, m, r, j, xs[level], ws[level]);
    assert forall|i: int| 0 <= i < 2 implies (#[trigger] t.tables[i]).len() == two_to(j) && canonical(p, t.tables[i]) by {
        assert(f.tables[i].len() == two_to(j + 1));
        crate::multilinear::lemma_fold_canonical(p, f.tables[i], r);
    }
    assert(t.point.drop_last() =~= f.point);
    assert(t.tables =~= bind_all(p, start, t.point));
}

proof fn lemma_fold_rounds<F: PrimeField, H: HashFunction>(
    p: int,
    ch: Oracle,
    table: Seq<Seq<int>>,
    log_rate: nat,
    xs: Seq<Seq<int>>,
    ws: Seq<Seq<int>>,
    tx: Tx,
    start: Seq<Seq<int>>,
    cw: Seq<int>,
    num_vars: nat,
    k: nat,
)
    requires
        fold_shape(p, ch).valid(),
        weights_fit(p, table, xs, ws, num_vars + log_rate),
        start.len() == 2,
        uniform(start, two_to(num_vars)),
        all_canonical(p, start),
        cw == encode(p, table, log_rate, start[1]),
        k <= num_vars,
    ensures
        ({
            let f = fold_rounds::<F, H>(p, ch, xs, ws, tx, start, cw, k);
            &&& folding_fits(p, table, log_rate, start, f, num_vars, k)
            &&& extends(tx, f.tx)
            &&& k > 0 ==> extends(
                fold_rounds::<F, H>(p, ch, xs, ws, tx, start, cw, (k - 1) as nat).tx,
                f.tx,
            )
        }),
    decreases k,
{
    let f = fold_rounds::<F, H>(p, ch, xs, ws, tx, start, cw, k);
    if k == 0 {
        lemma_prefix_push(tx.proof, Event::Challenge);
        assert(bind_all(p, start, Seq::empty()) =~= start);
    } else {
        let j = (k - 1) as nat;
        lemma_fold_rounds::<F, H>(p, ch, table, log_rate, xs, ws, tx, start, cw, num_vars, j);
        let s = fold_rounds::<F, H>(p, ch, xs, ws, tx, start, cw, j);
        let sh = fold_shape(p, ch);
        let t = prove_round(
            sh,
            pair_comb(1),
            Proving { tx: s.tx, point: s.point, tables: s.tables },
        );
        lemma_prove_one(sh, pair_comb(1), s.tx, s.point, s.tables);
        lemma_prove_rounds_shape(sh, pair_comb(1), s.tx, s.tables, 1, (num_vars - j) as nat);
        let r = t.point.last();
        let u = prove_rounds(sh, pair_comb(1), s.tx, s.tables, 1);
        assert(0 <= u.point[0] < p);
        lemma_folding(p, ch, table, log_rate, s, start, xs, ws, num_vars, j, r, t);
        let level = xs.len() - k;
        let next = fold_codeword(p, xs[level], ws[level], s.codewords.last(), r);
        let root = codeword_root::<F, H>(next);
        lemma_prefix_push(t.tx.proof, Event::Commitment(root));
        lemma_prefix_trans(s.tx.proof, t.tx.proof, f.tx.proof);
        lemma_prefix_trans(tx.proof, s.tx.proof, f.tx.proof);
    }
}

/// Both sides of the folding stay in step.
proof fn lemma_fold_sync<F: PrimeField, H: HashFunction>(
    p: int,
    ch: Oracle,
    table: Seq<Seq<int>>,
    log_rate: nat,
    xs: Seq<Seq<int>>,
    ws: Seq<Seq<int>>,
    tx: Tx,
    start: Seq<Seq<int>>,
    cw: Seq<int>,
    num_vars: nat,
    k: nat,
    full: Seq<Event>,
    check: Check,
    claim: int,
)
    requires
        fold_shape(p, ch).valid(),
        weights_fit(p, table, xs, ws, num_vars + log_rate),
        start.len() == 2,
        uniform(start, two_to(num_vars)),
        all_canonical(p, start),
        cw == encode(p, table, log_rate, start[1]),
        k <= num_vars,
        synced(tx, full, check),
        fold_rounds::<F, H>(p, ch, xs, ws, tx, start, cw, k).tx.proof.is_prefix_of(full),
        claim == total(pair_comb(1), start) % p,
    ensures
        ({
            let f = fold_rounds::<F, H>(p, ch, xs, ws, tx, start, cw, k);
            let v = check_folds(p, ch, check, claim, k);
            &&& synced(f.tx, full, v.check)
            &&& v.point == f.point
            &&& v.claim == total(pair_comb(1), f.tables) % p
            &&& v.oracles.len() == k
            &&& forall|j: int|
                0 <= j < k ==> #[trigger] v.oracles[j] == codeword_root::<F, H>(f.codewords[j + 1])
        }),
    decreases k,
{
    let f = fold_rounds::<F, H>(p, ch, xs, ws, tx, start, cw, k);
    lemma_fold_rounds::<F, H>(p, ch, table, log_rate, xs, ws, tx, start, cw, num_vars, k);
    if k > 0 {
        let j = (k - 1) as nat;
        let s = fold_rounds::<F, H>(p, ch, xs, ws, tx, start, cw, j);
        let v0 = check_folds(p, ch, check, claim, j);
        let sh = fold_shape(p, ch);
        lemma_prefix_trans(s.tx.proof, f.tx.proof, full);
        lemma_fold_sync::<F, H>(
            p,
            ch,
            table,
            log_rate,
            xs,
            ws,
            tx,
            start,
            cw,
            num_vars,
            j,
            full,
            check,
            claim,
        );
        lemma_fold_rounds::<F, H>(p, ch, table, log_rate, xs, ws, tx, start, cw, num_vars, j);
        let t = prove_round(
            sh,
            pair_comb(1),
            Proving { tx: s.tx, point: s.point, tables: s.tables },
        );
        lemma_prove_one(sh, pair_comb(1), s.tx, s.point, s.tables);
        lemma_check_one(sh, v0.check, v0.claim, v0.point);
        lemma_pair_comb(p, 1);
        let level = xs.len() - k;
        let next = fold_codeword(p, xs[level], ws[level], s.codewords.last(), t.point.last());
        let root = codeword_root::<F, H>(next);
        lemma_prefix_push(t.tx.proof, Event::Commitment(root));
        lemma_prefix_trans(t.tx.proof, f.tx.proof, full);
        law_sum_check_complete(
            sh,
            pair_comb(1),
            s.tx,
            s.tables,
            1,
            (num_vars - j) as nat,
            full,
            v0.check,
            v0.claim,
        );
        let c = check_round(
            sh,
            Claiming { check: v0.check, claim: v0.claim, point: v0.point },
        );
        law_read_committed(t.tx, full, c.check, root);
        let v = check_folds(p, ch, check, claim, k);
        assert forall|i: int| 0 <= i < k implies #[trigger] v.oracles[i] == codeword_root::<F, H>(
            f.codewords[i + 1],
        ) by {
            if i < j {
                assert(v.oracles[i] == v0.oracles[i]);
                assert(f.codewords[i + 1] == s.codewords[i + 1]);
            }
        }
    }
}

/// The answer that an honest prover gives to a query.
pub open spec fn honest_answer<F: PrimeField, H: HashFunction>(
    o: Opened,
    codewords: Seq<Seq<int>>,
    q: int,
    rounds: nat,
) -> Answer {
    Answer {
        opened: pairs_at(seq![o.first], q) + pairs_at(o.second, q) + pairs_at(o.third, q),
        path1: tree_path(o.first_tree, q),
        path2: tree_path(o.second_tree, q),
        path3: tree_path(o.third_tree, q),
        pairs: Seq::new(
            rounds,
            |k: int| pairs_at(seq![codewords[k + 1]], ancestor(q, (k + 1) as nat)),
        ),
        paths: Seq::new(
            rounds,
            |k: int|
                tree_path(
                    element_tree::<F, H>(codewords[k + 1]),
                    ancestor(q, (k + 1) as nat),
                ),
        ),
    }
}

proof fn lemma_send_folds_extends<F: PrimeField, H: HashFunction>(
    tx: Tx,
    codewords: Seq<Seq<int>>,
    q: int,
    n: nat,
)
    ensures
        extends(tx, send_folds::<F, H>(tx, codewords, q, n)),
        n > 0 ==> extends(
            send_folds::<F, H>(tx, codewords, q, (n - 1) as nat),
            send_folds::<F, H>(tx, codewords, q, n),
        ),
    decreases n,
{
    if n == 0 {
        lemma_prefix_push(tx.proof, Event::Challenge);
    } else {
        lemma_send_folds_extends::<F, H>(tx, codewords, q, (n - 1) as nat);
        let cw = codewords[n as int];
        let a = ancestor(q, n);
        let t0 = send_folds::<F, H>(tx, codewords, q, (n - 1) as nat);
        let e = pairs_at(seq![cw], a);
        let path = tree_path(element_tree::<F, H>(cw), a);
        lemma_part_extends(t0, e, path);
        lemma_prefix_trans(tx.proof, t0.proof, t0.write_all(e).commit_all(path).proof);
    }
}

/// Sending elements and a path.
proof fn lemma_part_extends(tx: Tx, e: Seq<int>, path: Seq<Output>)
    ensures
        extends(tx, tx.write_all(e)),
        extends(tx.write_all(e), tx.write_all(e).commit_all(path)),
        extends(tx, tx.write_all(e).commit_all(path)),
{
    lemma_write_all_extends(tx, e);
    lemma_commit_all_extends(tx.write_all(e), path);
    lemma_prefix_trans(tx.proof, tx.write_all(e).proof, tx.write_all(e).commit_all(path).proof);
}

/// Elements and a path that were sent are read.
proof fn lemma_part_sync(tx: Tx, full: Seq<Event>, c: Check, e: Seq<int>, path: Seq<Output>)
    requires
        synced(tx, full, c),
        tx.write_all(e).commit_all(path).proof.is_prefix_of(full),
    ensures
        ({
            let (c1, x) = c.read_many(e.len());
            let (c2, y) = c1.read_commitments(path.len());
            &&& x == e
            &&& y == path
            &&& synced(tx.write_all(e).commit_all(path), full, c2)
        }),
{
    lemma_part_extends(tx, e, path);
    lemma_prefix_trans(tx.write_all(e).proof, tx.write_all(e).commit_all(path).proof, full);
    law_read_all_written(tx, full, c, e);
    law_read_all_committed(tx.write_all(e), full, c.read_many(e.len()).0, path);
}

/// The sizes of the codewords of a folding.
pub open spec fn codewords_fit(codewords: Seq<Seq<int>>, levels: nat, rounds: nat) -> bool {
    &&& rounds < levels
    &&& codewords.len() == rounds + 1
    &&& forall|k: int| 0 <= k <= rounds ==> (#[trigger] codewords[k]).len() == two_to((levels - k) as nat)
}

proof fn lemma_folds_sync<F: PrimeField, H: HashFunction>(
    tx: Tx,
    full: Seq<Event>,
    c: Check,
    codewords: Seq<Seq<int>>,
    q: int,
    levels: nat,
    rounds: nat,
    n: nat,
)
    requires
        synced(tx, full, c),
        send_folds::<F, H>(tx, codewords, q, n).proof.is_prefix_of(full),
        codewords_fit(codewords, levels, rounds),
        n <= rounds,
    ensures
        ({
            let (d, pairs, paths) = read_folds(c, levels, n);
            &&& synced(send_folds::<F, H>(tx, codewords, q, n), full, d)
            &&& pairs == Seq::new(
                n,
                |k: int| pairs_at(seq![codewords[k + 1]], ancestor(q, (k + 1) as nat)),
            )
            &&& paths == Seq::new(
                n,
                |k: int|
                    tree_path(
                        element_tree::<F, H>(codewords[k + 1]),
                        ancestor(q, (k + 1) as nat),
                    ),
            )
        }),
    decreases n,
{
    let (d, pairs, paths) = read_folds(c, levels, n);
    if n == 0 {
        assert(pairs =~= Seq::new(
            n,
            |k: int| pairs_at(seq![codewords[k + 1]], ancestor(q, (k + 1) as nat)),
        ));
        assert(paths =~= Seq::new(
            n,
            |k: int|
                tree_path(element_tree::<F, H>(codewords[k + 1]), ancestor(q, (k + 1) as nat)),
        ));
    } else {
        let m = (n - 1) as nat;
        lemma_send_folds_extends::<F, H>(tx, codewords, q, n);
        let t0 = send_folds::<F, H>(tx, codewords, q, m);
        lemma_prefix_trans(t0.proof, send_folds::<F, H>(tx, codewords, q, n).proof, full);
        lemma_folds_sync::<F, H>(tx, full, c, codewords, q, levels, rounds, m);
        let c0 = read_folds(c, levels, m).0;
        let cw = codewords[n as int];
        let a = ancestor(q, n);
        let e = pairs_at(seq![cw], a);
        let path = tree_path(element_tree::<F, H>(cw), a);
        crate::basefold_batch::lemma_element_tree_shape::<F, H>(cw, (levels - n) as nat);
        assert(path.len() == levels - n);
        assert(e.len() == 2);
        lemma_part_sync(t0, full, c0, e, path);
        assert(pairs =~= Seq::new(
            n,
            |k: int| pairs_at(seq![codewords[k + 1]], ancestor(q, (k + 1) as nat)),
        ));
        assert(paths =~= Seq::new(
            n,
            |k: int|
                tree_path(element_tree::<F, H>(codewords[k + 1]), ancestor(q, (k + 1) as nat)),
        ));
    }
}

/// The commitments hold nine codewords and the trees over them.
pub open spec fn opened_honest<F: PrimeField, H: HashFunction>(o: Opened, levels: nat) -> bool {
    &&& levels >= 1
    &&& o.first.len() == two_to(levels)
    &&& o.second.len() == 2
    &&& o.third.len() == 6
    &&& uniform(o.second, two_to(levels))
    &&& uniform(o.third, two_to(levels))
    &&& o.first_tree == element_tree::<F, H>(o.first)
    &&& o.second_tree == column_tree::<F, H>(o.second)
    &&& o.third_tree == column_tree::<F, H>(o.third)
}

proof fn lemma_send_query_extends<F: PrimeField, H: HashFunction>(
    tx: Tx,
    o: Opened,
    codewords: Seq<Seq<int>>,
    q: int,
    rounds: nat,
)
    ensures
        extends(tx, send_query::<F, H>(tx, o, codewords, q, rounds)),
{
    let (e1, p1) = (pairs_at(seq![o.first], q), tree_path(o.first_tree, q));
    let (e2, p2) = (pairs_at(o.second, q), tree_path(o.second_tree, q));
    let (e3, p3) = (pairs_at(o.third, q), tree_path(o.third_tree, q));
    let t1 = tx.write_all(e1).commit_all(p1);
    let t2 = t1.write_all(e2).commit_all(p2);
    let t3 = t2.write_all(e3).commit_all(p3);
    lemma_part_extends(tx, e1, p1);
    lemma_part_extends(t1, e2, p2);
    lemma_part_extends(t2, e3, p3);
    lemma_send_folds_extends::<F, H>(t3, codewords, q, rounds);
    let t4 = send_folds::<F, H>(t3, codewords, q, rounds);
    lemma_prefix_trans(t2.proof, t3.proof, t4.proof);
    lemma_prefix_trans(t1.proof, t2.proof, t4.proof);
    lemma_prefix_trans(tx.proof, t1.proof, t4.proof);
}

proof fn lemma_answer_sync<F: PrimeField, H: HashFunction>(
    tx: Tx,
    full: Seq<Event>,
    c: Check,
    o: Opened,
    codewords: Seq<Seq<int>>,
    q: int,
    levels: nat,
    rounds: nat,
)
    requires
        synced(tx, full, c),
        send_query::<F, H>(tx, o, codewords, q, rounds).proof.is_prefix_of(full),
        codewords_fit(codewords, levels, rounds),
        opened_honest::<F, H>(o, levels),
    ensures
        synced(
            send_query::<F, H>(tx, o, codewords, q, rounds),
            full,
            read_answer(c, levels, rounds).0,
        ),
        read_answer(c, levels, rounds).1 == honest_answer::<F, H>(o, codewords, q, rounds),
{
    crate::basefold_batch::lemma_element_tree_shape::<F, H>(o.first, levels);
    assert(o.second[0].len() == two_to(levels));
    assert(o.third[0].len() == two_to(levels));
    crate::basefold_batch::lemma_column_tree_shape::<F, H>(o.second, levels);
    crate::basefold_batch::lemma_column_tree_shape::<F, H>(o.third, levels);
    let (e1, p1) = (pairs_at(seq![o.first], q), tree_path(o.first_tree, q));
    let (e2, p2) = (pairs_at(o.second, q), tree_path(o.second_tree, q));
    let (e3, p3) = (pairs_at(o.third, q), tree_path(o.third_tree, q));
    let t1 = tx.write_all(e1).commit_all(p1);
    let t2 = t1.write_all(e2).commit_all(p2);
    let t3 = t2.write_all(e3).commit_all(p3);
    let t4 = send_folds::<F, H>(t3, codewords, q, rounds);
    lemma_part_extends(t1, e2, p2);
    lemma_part_extends(t2, e3, p3);
    lemma_send_folds_extends::<F, H>(t3, codewords, q, rounds);
    lemma_prefix_trans(t3.proof, t4.proof, full);
    lemma_prefix_trans(t2.proof, t3.proof, full);
    lemma_prefix_trans(t1.proof, t2.proof, full);
    lemma_part_sync(tx, full, c, e1, p1);
    let c2 = c.read_many(2).0.read_commitments(levels).0;
    lemma_part_sync(t1, full, c2, e2, p2);
    let c4 = c2.read_many(4).0.read_commitments(levels).0;
    lemma_part_sync(t2, full, c4, e3, p3);
    let c6 = c4.read_many(12).0.read_commitments(levels).0;
    lemma_folds_sync::<F, H>(t3, full, c6, codewords, q, levels, rounds, rounds);
}

proof fn lemma_send_queries_extends<F: PrimeField, H: HashFunction>(
    tx: Tx,
    o: Opened,
    codewords: Seq<Seq<int>>,
    qs: Seq<int>,
    rounds: nat,
    n: nat,
)
    ensures
        extends(tx, send_queries::<F, H>(tx, o, codewords, qs, rounds, n)),
    decreases n,
{
    if n == 0 {
        lemma_prefix_push(tx.proof, Event::Challenge);
    } else {
        lemma_send_queries_extends::<F, H>(tx, o, codewords, qs, rounds, (n - 1) as nat);
        let t = send_queries::<F, H>(tx, o, codewords, qs, rounds, (n - 1) as nat);
        lemma_send_query_extends::<F, H>(t, o, codewords, qs[n - 1], rounds);
        lemma_prefix_trans(
            tx.proof,
            t.proof,
            send_query::<F, H>(t, o, codewords, qs[n - 1], rounds).proof,
        );
    }
}

proof fn lemma_answers_sync<F: PrimeField, H: HashFunction>(
    tx: Tx,
    full: Seq<Event>,
    c: Check,
    o: Opened,
    codewords: Seq<Seq<int>>,
    qs: Seq<int>,
    levels: nat,
    rounds: nat,
    n: nat,
)
    requires
        synced(tx, full, c),
        send_queries::<F, H>(tx, o, codewords, qs, rounds, n).proof.is_prefix_of(full),
        codewords_fit(codewords, levels, rounds),
        opened_honest::<F, H>(o, levels),
    ensures
        synced(
            send_queries::<F, H>(tx, o, codewords, qs, rounds, n),
            full,
            read_answers(c, levels, rounds, n).0,
        ),
        read_answers(c, levels, rounds, n).1 == Seq::new(
            n,
            |i: int| honest_answer::<F, H>(o, codewords, qs[i], rounds),
        ),
    decreases n,
{
    let r = read_answers(c, levels, rounds, n).1;
    let target = Seq::new(n, |i: int| honest_answer::<F, H>(o, codewords, qs[i], rounds));
    if n == 0 {
        assert(r =~= target);
    } else {
        let m = (n - 1) as nat;
        let t = send_queries::<F, H>(tx, o, codewords, qs, rounds, m);
        lemma_send_query_extends::<F, H>(t, o, codewords, qs[n - 1], rounds);
        lemma_prefix_trans(
            t.proof,
            send_query::<F, H>(t, o, codewords, qs[n - 1], rounds).proof,
            full,
        );
        lemma_answers_sync::<F, H>(tx, full, c, o, codewords, qs, levels, rounds, m);
        let d = read_answers(c, levels, rounds, m).0;
        lemma_answer_sync::<F, H>(t, full, d, o, codewords, qs[n - 1], levels, rounds);
        assert(r =~= target);
    }
}

/// The paths of an honest answer lead to the roots.
proof fn lemma_honest_paths<F: PrimeField, H: HashFunction>(
    o: Opened,
    codewords: Seq<Seq<int>>,
    q: int,
    levels: nat,
    rounds: nat,
    oracles: Seq<Output>,
)
    requires
        codewords_fit(codewords, levels, rounds),
        opened_honest::<F, H>(o, levels),
        0 <= q < two_to((levels - 1) as nat),
        forall|k: int|
            0 <= k < rounds ==> #[trigger] oracles[k] == codeword_root::<F, H>(codewords[k + 1]),
    ensures
        paths_hold::<F, H>(
            honest_answer::<F, H>(o, codewords, q, rounds),
            q,
            rounds,
            o.first_tree[levels - 1][0],
            o.second_tree[levels - 1][0],
            o.third_tree[levels - 1][0],
            oracles,
        ),
{
    let a = honest_answer::<F, H>(o, codewords, q, rounds);
    assert(two_to(levels) == 2 * two_to((levels - 1) as nat));
    lemma_log2_two_to(levels);
    // the first commitment
    let l1 = pair_digests::<F, H>(o.first);
    law_path_complete::<H>(l1, levels, q);
    let e1 = pairs_at(seq![o.first], q);
    assert(a.opened[0] == e1[0] && a.opened[1] == e1[1]);
    assert(e1[0] == o.first[2 * q] && e1[1] == o.first[2 * q + 1]);
    assert(l1[q] == digest_elements::<F, H>(seq![a.opened[0], a.opened[1]]));
    // the second
    assert(o.second[0].len() == two_to(levels));
    let d2 = column_digests::<F, H>(o.second);
    let l2 = level_above::<H>(d2);
    law_path_complete::<H>(l2, levels, q);
    assert(strided(a.opened, 2, 2) =~= column(o.second, 2 * q)) by {
        let e2 = pairs_at(o.second, q);
        assert forall|i: int| 0 <= i < 2 implies strided(a.opened, 2, 2)[i] == o.second[i][2 * q] by {
            assert(a.opened[2 + 2 * i] == e2[2 * i]);
            assert((2 * i) / 2 == i && (2 * i) % 2 == 0);
        }
    }
    assert(strided(a.opened, 3, 2) =~= column(o.second, 2 * q + 1)) by {
        let e2 = pairs_at(o.second, q);
        assert forall|i: int| 0 <= i < 2 implies strided(a.opened, 3, 2)[i] == o.second[i][2 * q + 1] by {
            assert(a.opened[3 + 2 * i] == e2[2 * i + 1]);
            assert((2 * i + 1) / 2 == i && (2 * i + 1) % 2 == 1);
        }
    }
    assert(l2[q] == column_pair_digest::<F, H>(a.opened, 2, 2));
    // the third
    assert(o.third[0].len() == two_to(levels));
    let d3 = column_digests::<F, H>(o.third);
    let l3 = level_above::<H>(d3);
    law_path_complete::<H>(l3, levels, q);
    assert(strided(a.opened, 6, 6) =~= column(o.third, 2 * q)) by {
        let e3 = pairs_at(o.third, q);
        assert forall|i: int| 0 <= i < 6 implies strided(a.opened, 6, 6)[i] == o.third[i][2 * q] by {
            assert(a.opened[6 + 2 * i] == e3[2 * i]);
            assert((2 * i) / 2 == i && (2 * i) % 2 == 0);
        }
    }
    assert(strided(a.opened, 7, 6) =~= column(o.third, 2 * q + 1)) by {
        let e3 = pairs_at(o.third, q);
        assert forall|i: int| 0 <= i < 6 implies strided(a.opened, 7, 6)[i] == o.third[i][2 * q + 1] by {
            assert(a.opened[7 + 2 * i] == e3[2 * i + 1]);
            assert((2 * i + 1) / 2 == i && (2 * i + 1) % 2 == 1);
        }
    }
    assert(l3[q] == column_pair_digest::<F, H>(a.opened, 6, 6));
    // the folded codewords
    assert forall|k: int| 0 <= k < rounds implies path_holds::<H>(
        digest_elements::<F, H>(seq![a.pairs[k][0], a.pairs[k][1]]),
        ancestor(q, (k + 1) as nat),
        #[trigger] a.paths[k],
        oracles[k],
    ) by {
        let cw = codewords[k + 1];
        let m = (levels - 1 - k) as nat;
        let b = ancestor(q, (k + 1) as nat);
        lemma_ancestor_bound(q, (levels - 1) as nat, (k + 1) as nat);
        assert(cw.len() == two_to(m));
        assert(two_to(m) == 2 * two_to((m - 1) as nat));
        lemma_log2_two_to(m);
        let l = pair_digests::<F, H>(cw);
        law_path_complete::<H>(l, m, b);
        let e = pairs_at(seq![cw], b);
        assert(a.pairs[k] == e);
        assert(e[0] == cw[2 * b] && e[1] == cw[2 * b + 1]);
        assert(l[b] == digest_elements::<F, H>(seq![a.pairs[k][0], a.pairs[k][1]]));
        assert(oracles[k] == codeword_root::<F, H>(cw));
    }
}

/// One step of folding, as the verifier checks it.
proof fn lemma_folds_to(p: int, x: int, w: int, e0: int, e1: int, r: int, c: int)
    requires
        p > 0,
        x != 0,
        is_weight(p, x, w),
        c == (e0 + (r - x) * ((e1 - e0) * w)) % p,
    ensures
        folds_to(p, x, e0, e1, r, c),
{
    let t = e0 + (r - x) * ((e1 - e0) * w);
    lemma_cong_mod(p, t);
    lemma_cong_mul(p, 2 * x, 2 * x, c, t);
    let d = e1 - e0;
    let z = r - x;
    assert((2 * x) * (e0 + z * (d * w)) == (2 * x) * e0 - (z * d) * ((-2 * x) * w)) by {
        let u = z * (d * w);
        assert((2 * x) * (e0 + u) == (2 * x) * e0 + (2 * x) * u) by (nonlinear_arith);
        assert((2 * x) * (z * (d * w)) == -((z * d) * ((-2 * x) * w))) by (nonlinear_arith);
    }
    lemma_cong_mul(p, z * d, z * d, (-2 * x) * w, 1);
    assert((z * d) * 1 == z * d);
    lemma_cong_sub(p, (2 * x) * e0, (2 * x) * e0, (z * d) * ((-2 * x) * w), z * d);
    assert((2 * x) * e0 - (r - x) * (e1 - e0) == x * (e0 + e1) + r * (e0 - e1)) by (nonlinear_arith);
}

/// The values that an honest answer opens fold to each other.
proof fn lemma_honest_folds<F: PrimeField, H: HashFunction>(
    p: int,
    seed: Seq<u8>,
    table: Seq<Seq<int>>,
    xs: Seq<Seq<int>>,
    ws: Seq<Seq<int>>,
    o: Opened,
    codewords: Seq<Seq<int>>,
    q: int,
    levels: nat,
    rc: Seq<int>,
    rs: Seq<int>,
)
    requires
        p > 0,
        weights_fit(p, table, xs, ws, levels),
        forall|l: int, i: int|
            #![trigger table[l][i]]
            0 <= l < levels && 0 <= i < two_to(l as nat) ==> table[l][i] == table_entry(
                p,
                seed,
                l as nat,
                i,
            ),
        codewords_fit(codewords, levels, rs.len()),
        opened_honest::<F, H>(o, levels),
        rc.len() == 9,
        codewords[0] == combine(p, rc, opened_codewords(o), two_to(levels)),
        forall|k: int|
            0 <= k < rs.len() ==> codewords[k + 1] == fold_codeword(
                p,
                xs[levels - 1 - k],
                ws[levels - 1 - k],
                #[trigger] codewords[k],
                rs[k],
            ),
        0 <= q < two_to((levels - 1) as nat),
    ensures
        folds_hold(
            p,
            seed,
            levels,
            honest_answer::<F, H>(o, codewords, q, rs.len()),
            q,
            rc,
            rs,
        ),
{
    let rounds = rs.len();
    let a = honest_answer::<F, H>(o, codewords, q, rounds);
    assert forall|k: int| 0 <= k < rounds implies #[trigger] fold_holds(
        p,
        seed,
        levels,
        a,
        q,
        rc,
        rs,
        k,
    ) by {
        let b = ancestor(q, k as nat);
        let l = levels - 1 - k;
        lemma_ancestor_bound(q, (levels - 1) as nat, k as nat);
        assert(0 <= b < two_to(l as nat));
        let cw = codewords[k];
        assert(cw.len() == two_to((levels - k) as nat));
        assert(two_to((levels - k) as nat) == 2 * two_to(l as nat));
        // the pair of this round
        let (e0, e1) = round_pair(p, a, rc, k);
        assert(e0 == cw[2 * b] && e1 == cw[2 * b + 1]) by {
            if k == 0 {
                lemma_opened_entry(o, q, levels);
                let all = opened_codewords(o);
                let f0 = |i: int| rc[i] * a.opened[2 * i];
                let f1 = |i: int| rc[i] * a.opened[2 * i + 1];
                let g0 = |i: int| rc[i] * all[i][2 * q];
                let g1 = |i: int| rc[i] * all[i][2 * q + 1];
                assert forall|i: int| 0 <= i < 9 implies #[trigger] f0(i) == g0(i) by {
                    assert(a.opened[2 * i] == all[i][2 * q]);
                }
                assert forall|i: int| 0 <= i < 9 implies #[trigger] f1(i) == g1(i) by {
                    assert(a.opened[2 * i + 1] == all[i][2 * q + 1]);
                }
                lemma_sum_ext(9, f0, g0);
                lemma_sum_ext(9, f1, g1);
                assert(all.len() == 9);
                lemma_sum_ext(9, g0, |i: int| rc[i] * all[i][2 * q]);
                lemma_sum_ext(9, g1, |i: int| rc[i] * all[i][2 * q + 1]);
            } else {
                let e = pairs_at(seq![cw], b);
                assert(a.pairs[k - 1] == e);
                assert(e[0] == cw[2 * b] && e[1] == cw[2 * b + 1]);
            }
        }
        // the entry of the next round
        let next = codewords[k + 1];
        let c = ancestor(q, (k + 1) as nat);
        assert(c == b / 2);
        let e = pairs_at(seq![next], c);
        assert(a.pairs[k] == e);
        assert(e[b % 2] == next[b]) by {
            if b % 2 == 0 {
                assert(e[0] == next[2 * c]);
            } else {
                assert(e[1] == next[2 * c + 1]);
            }
        }
        let x = xs[l][b];
        lemma_reversed_bound(b as nat, l as nat);
        let ri = reversed(b as nat, l as nat) as int;
        assert(x == table[l][ri]);
        assert(table[l][ri] == table_entry(p, seed, l as nat, ri));
        assert(x == fold_point(p, seed, levels, q, k));
        lemma_folds_to(p, x, ws[l][b], e0, e1, rs[k], next[b]);
    }
}

/// What an honest answer opens of the commitments, in the order of the weights.
proof fn lemma_opened_entry(o: Opened, q: int, levels: nat)
    requires
        o.second.len() == 2,
        o.third.len() == 6,
    ensures
        ({
            let opened = pairs_at(seq![o.first], q) + pairs_at(o.second, q) + pairs_at(o.third, q);
            let all = opened_codewords(o);
            &&& all.len() == 9
            &&& forall|i: int|
                0 <= i < 9 ==> opened[2 * i] == (#[trigger] all[i])[2 * q] && opened[2 * i + 1]
                    == all[i][2 * q + 1]
        }),
{
    let e1 = pairs_at(seq![o.first], q);
    let e2 = pairs_at(o.second, q);
    let e3 = pairs_at(o.third, q);
    let opened = e1 + e2 + e3;
    let all = opened_codewords(o);
    assert forall|i: int| 0 <= i < 9 implies opened[2 * i] == (#[trigger] all[i])[2 * q] && opened[2 * i
        + 1] == all[i][2 * q + 1] by {
        if i == 0 {
            assert(opened[0] == e1[0] && opened[1] == e1[1]);
        } else if i < 3 {
            let j = i - 1;
            assert(opened[2 * i] == e2[2 * j] && opened[2 * i + 1] == e2[2 * j + 1]);
            assert((2 * j) / 2 == j && (2 * j) % 2 == 0);
            assert((2 * j + 1) / 2 == j && (2 * j + 1) % 2 == 1);
            assert(all[i] == o.second[j]);
        } else {
            let j = i - 3;
            assert(opened[2 * i] == e3[2 * j] && opened[2 * i + 1] == e3[2 * j + 1]);
            assert((2 * j) / 2 == j && (2 * j) % 2 == 0);
            assert((2 * j + 1) / 2 == j && (2 * j + 1) % 2 == 1);
            assert(all[i] == o.third[j]);
        }
    }
}

/// The codewords of a folding are what their weights make of them.
proof fn lemma_fold_chain<F: PrimeField, H: HashFunction>(
    p: int,
    ch: Oracle,
    xs: Seq<Seq<int>>,
    ws: Seq<Seq<int>>,
    tx: Tx,
    start: Seq<Seq<int>>,
    cw: Seq<int>,
    levels: nat,
    k: nat,
)
    requires
        xs.len() == levels,
        cw.len() == two_to(levels),
        k < levels,
    ensures
        ({
            let f = fold_rounds::<F, H>(p, ch, xs, ws, tx, start, cw, k);
            &&& f.codewords.len() == k + 1
            &&& f.point.len() == k
            &&& f.codewords[0] == cw
            &&& forall|j: int|
                0 <= j <= k ==> (#[trigger] f.codewords[j]).len() == two_to((levels - j) as nat)
            &&& forall|j: int|
                0 <= j < k ==> f.codewords[j + 1] == fold_codeword(
                    p,
                    xs[levels - 1 - j],
                    ws[levels - 1 - j],
                    #[trigger] f.codewords[j],
                    f.point[j],
                )
        }),
    decreases k,
{
    if k > 0 {
        let i = (k - 1) as nat;
        lemma_fold_chain::<F, H>(p, ch, xs, ws, tx, start, cw, levels, i);
        let s = fold_rounds::<F, H>(p, ch, xs, ws, tx, start, cw, i);
        let f = fold_rounds::<F, H>(p, ch, xs, ws, tx, start, cw, k);
        assert(f.codewords.len() == s.codewords.len() + 1);
        let m = (levels - k) as nat;
        assert(two_to(m + 1) == 2 * two_to(m));
        assert(s.codewords[i as int].len() == two_to(m + 1));
        assert forall|j: int| 0 <= j <= k implies (#[trigger] f.codewords[j]).len() == two_to((levels - j) as nat) by {
            if j < k {
                assert(f.codewords[j] == s.codewords[j]);
            }
        }
        assert forall|j: int| 0 <= j < k implies f.codewords[j + 1] == fold_codeword(
            p,
            xs[levels - 1 - j],
            ws[levels - 1 - j],
            #[trigger] f.codewords[j],
            f.point[j],
        ) by {
            if j < i {
                assert(f.codewords[j] == s.codewords[j]);
                assert(f.codewords[j + 1] == s.codewords[j + 1]);
                assert(f.point[j] == s.point[j]);
            }
        }
    }
}

/// Opening a batch only adds to the proof.
pub proof fn lemma_open_batch_extends<F: PrimeField, H: HashFunction>(
    p: int,
    ch: Oracle,
    table: Seq<Seq<int>>,
    xs: Seq<Seq<int>>,
    ws: Seq<Seq<int>>,
    log_rate: nat,
    tx: Tx,
    polys: Seq<Seq<int>>,
    rc: Seq<int>,
    point: Seq<int>,
    o: Opened,
    num_queries: nat,
)
    requires
        fold_shape(p, ch).valid(),
        weights_fit(p, table, xs, ws, point.len() + log_rate),
        opened_honest::<F, H>(o, point.len() + log_rate),
        polys.len() == 9,
        uniform(polys, two_to(point.len())),
        forall|i: int|
            0 <= i < 9 ==> #[trigger] opened_codewords(o)[i] == encode(p, table, log_rate, polys[i]),
    ensures
        extends(tx, open_batch::<F, H>(p, ch, xs, ws, tx, polys, rc, point, o, num_queries)),
{
    let n = point.len();
    let levels = n + log_rate;
    let start = seq![basis(p, point), combine(p, rc, polys, two_to(n))];
    let cw = combine(p, rc, opened_codewords(o), o.first.len());
    assert(two_to(log_rate + n) == two_to(levels));
    law_encode_combination(p, table, log_rate, rc, polys, opened_codewords(o), n);
    lemma_combine_canonical(p, rc, polys, two_to(n));
    assert(all_canonical(p, start)) by {
        assert forall|i: int| 0 <= i < start[0].len() implies 0 <= #[trigger] start[0][i] < p by {
            lemma_mod_canonical(p, eq_prod(i, point));
        }
    }
    assert(uniform(start, two_to(n)));
    lemma_fold_rounds::<F, H>(p, ch, table, log_rate, xs, ws, tx, start, cw, n, n);
    let f = fold_rounds::<F, H>(p, ch, xs, ws, tx, start, cw, n);
    let t = f.tx.squeeze_many(num_queries);
    let qs = query_indices(
        challenges(ch, f.tx.hist, num_queries),
        (o.first.len() / 2) as int,
    );
    crate::transcript::lemma_squeeze_many_hist(f.tx, num_queries);
    lemma_send_queries_extends::<F, H>(t, o, f.codewords, qs, n, num_queries);
    lemma_prefix_trans(
        tx.proof,
        f.tx.proof,
        send_queries::<F, H>(t, o, f.codewords, qs, n, num_queries).proof,
    );
}

/// `x` has an inverse.
pub open spec fn invertible(p: int, x: int) -> bool {
    exists|i: int| cong(p, #[trigger] (x * i), 1)
}

/// An honest opening is accepted: where the commitments hold the codewords of the polynomials,
/// the values are those of the polynomials, and the product of the two points that the verifier
/// divides by has an inverse.
#[verifier::rlimit(60)]
pub proof fn law_batch_complete<F: PrimeField, H: HashFunction>(
    p: int,
    ch: Oracle,
    seed: Seq<u8>,
    table: Seq<Seq<int>>,
    xs: Seq<Seq<int>>,
    ws: Seq<Seq<int>>,
    log_rate: nat,
    tx: Tx,
    polys: Seq<Seq<int>>,
    rc: Seq<int>,
    point: Seq<int>,
    o: Opened,
    evals: Seq<int>,
    num_queries: nat,
    full: Seq<Event>,
    check: Check,
)
    requires
        fold_shape(p, ch).valid(),
        point.len() >= 1,
        log_rate >= 1,
        weights_fit(p, table, xs, ws, point.len() + log_rate),
        forall|l: int, i: int|
            #![trigger table[l][i]]
            0 <= l < point.len() + log_rate && 0 <= i < two_to(l as nat) ==> table[l][i] == table_entry(
                p,
                seed,
                l as nat,
                i,
            ),
        opened_honest::<F, H>(o, point.len() + log_rate),
        rc.len() == 9,
        polys.len() == 9,
        uniform(polys, two_to(point.len())),
        forall|i: int|
            0 <= i < 9 ==> #[trigger] opened_codewords(o)[i] == encode(p, table, log_rate, polys[i]),
        cong(
            p,
            dot(rc, evals),
            total(
                pair_comb(1),
                seq![basis(p, point), combine(p, rc, polys, two_to(point.len()))],
            ),
        ),
        synced(tx, full, check),
        open_batch::<F, H>(p, ch, xs, ws, tx, polys, rc, point, o, num_queries).proof.is_prefix_of(
            full,
        ),
        invertible(
            p,
            eq_points(
                point,
                fold_rounds::<F, H>(
                    p,
                    ch,
                    xs,
                    ws,
                    tx,
                    seq![basis(p, point), combine(p, rc, polys, two_to(point.len()))],
                    combine(p, rc, opened_codewords(o), o.first.len()),
                    point.len(),
                ).point,
            ),
        ),
    ensures
        synced(
            open_batch::<F, H>(p, ch, xs, ws, tx, polys, rc, point, o, num_queries),
            full,
            check_batch::<F, H>(
                p,
                ch,
                check,
                seed,
                point.len(),
                log_rate,
                num_queries,
                rc,
                point,
                o.first_tree[point.len() + log_rate - 1][0],
                o.second_tree[point.len() + log_rate - 1][0],
                o.third_tree[point.len() + log_rate - 1][0],
                evals,
            ),
        ),
{
    let n = point.len();
    let levels = n + log_rate;
    let poly = combine(p, rc, polys, two_to(n));
    let start = seq![basis(p, point), poly];
    let cw = combine(p, rc, opened_codewords(o), o.first.len());
    let claim = dot(rc, evals) % p;
    let f = fold_rounds::<F, H>(p, ch, xs, ws, tx, start, cw, n);
    let s = check_folds(p, ch, check, claim, n);
    assert(two_to(log_rate + n) == two_to(levels));
    law_encode_combination(p, table, log_rate, rc, polys, opened_codewords(o), n);
    lemma_combine_canonical(p, rc, polys, two_to(n));
    assert(all_canonical(p, start)) by {
        assert forall|i: int| 0 <= i < start[0].len() implies 0 <= #[trigger] start[0][i] < p by {
            lemma_mod_canonical(p, eq_prod(i, point));
        }
    }
    assert(uniform(start, two_to(n)));
    lemma_cong_mod(p, total(pair_comb(1), start));
    // the folding
    let t5 = f.tx.squeeze_many(num_queries);
    let drawn = challenges(ch, f.tx.hist, num_queries);
    let qs = query_indices(drawn, (o.first.len() / 2) as int);
    let end = send_queries::<F, H>(t5, o, f.codewords, qs, n, num_queries);
    crate::transcript::lemma_squeeze_many_hist(f.tx, num_queries);
    lemma_send_queries_extends::<F, H>(t5, o, f.codewords, qs, n, num_queries);
    lemma_prefix_trans(f.tx.proof, end.proof, full);
    lemma_fold_sync::<F, H>(p, ch, table, log_rate, xs, ws, tx, start, cw, n, n, full, check, claim);
    lemma_fold_rounds::<F, H>(p, ch, table, log_rate, xs, ws, tx, start, cw, n, n);
    // the last round
    let (a, b) = (f.tables[0][0], f.tables[1][0]);
    assert(f.tables[0].len() == 1 && f.tables[1].len() == 1);
    lemma_bind_basis(p, point, f.point);
    assert(f.tables[0] == bind(p, basis(p, point), f.point));
    let g = |k: int| pair_comb(1)(row(f.tables, k));
    lemma_sum_step(0, g);
    let w = row(f.tables, 0);
    lemma_sum_step(0, |i: int| w[i] * w[1 + i]);
    assert(total(pair_comb(1), f.tables) == a * b);
    let e = eq_points(point, f.point) % p;
    lemma_cong_mod(p, eq_points(point, f.point));
    lemma_mod_canonical(p, eq_points(point, f.point));
    assert(canonical(p, f.tables[0]) && canonical(p, f.tables[1]));
    assert(0 <= a < p && 0 <= b < p);
    lemma_canonical_unique(p, a, e);
    let i = choose|i: int| cong(p, #[trigger] (eq_points(point, f.point) * i), 1);
    lemma_cong_mul(p, e, eq_points(point, f.point), i, i);
    assert(cong(p, e * i, 1));
    if e == 0 {
        assert(0 * i == 0) by (nonlinear_arith);
        lemma_mod_small(p, 0);
        lemma_mod_small(p, 1);
    }
    assert(quotient(p, s.claim, e) == b) by {
        assert(b * e == a * b) by (nonlinear_arith)
            requires
                a == e,
        ;
        lemma_cong_mod(p, a * b);
        assert(is_quotient(p, s.claim, e, b));
        let h = quotient(p, s.claim, e);
        assert(is_quotient(p, s.claim, e, h));
        assert(b * e == e * b && h * e == e * h) by (nonlinear_arith);
        lemma_cancel_invertible(p, e, i, b, h);
        lemma_canonical_unique(p, b, h);
    }
    let last = Seq::new(two_to(log_rate), |j: int| quotient(p, s.claim, e));
    assert(last =~= encode(p, table, log_rate, f.tables[1]));
    assert(s.oracles[n - 1] == codeword_root::<F, H>(f.codewords[n as int]));
    // the queries
    law_same_challenges(f.tx, full, s.check, ch, num_queries);
    let c3 = s.check.squeeze_many(ch, num_queries).0;
    assert(two_to(levels) == 2 * two_to((levels - 1) as nat));
    lemma_two_to_positive((levels - 1) as nat);
    crate::transcript::lemma_challenges_canonical(p, ch, f.tx.hist, num_queries);
    lemma_fold_chain::<F, H>(p, ch, xs, ws, tx, start, cw, levels, n);
    lemma_answers_sync::<F, H>(t5, full, c3, o, f.codewords, qs, levels, n, num_queries);
    let answers = read_answers(c3, levels, n, num_queries).1;
    let cap = two_to((levels - 1) as nat) as int;
    assert(o.first.len() / 2 == cap);
    assert forall|j: int| 0 <= j < num_queries implies 0 <= #[trigger] qs[j] < cap by {
        assert(qs[j] == index_of(drawn[j], cap));
        lemma_mod_canonical(cap, drawn[j] % 0x1_0000_0000);
    }
    assert forall|j: int| 0 <= j < num_queries implies paths_hold::<F, H>(
        #[trigger] answers[j],
        qs[j],
        n,
        o.first_tree[levels - 1][0],
        o.second_tree[levels - 1][0],
        o.third_tree[levels - 1][0],
        s.oracles,
    ) by {
        assert(0 <= qs[j] < cap);
        lemma_honest_paths::<F, H>(o, f.codewords, qs[j], levels, n, s.oracles);
    }
    assert forall|j: int| 0 <= j < num_queries implies folds_hold(
        p,
        seed,
        levels,
        #[trigger] answers[j],
        qs[j],
        rc,
        s.point,
    ) by {
        assert(0 <= qs[j] < cap);
        lemma_honest_folds::<F, H>(
            p,
            seed,
            table,
            xs,
            ws,
            o,
            f.codewords,
            qs[j],
            levels,
            rc,
            f.point,
        );
    }
}

} // verus!
