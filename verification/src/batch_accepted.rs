//! What the verifier of openings in the foldable code makes sure of when it accepts.
use vstd::prelude::*;
use crate::algebra::{cong, lemma_two_to_positive, two_to};
use crate::basefold::table_entry;
use crate::basefold_batch::{
    Answer, FoldChecking, check_batch, check_folds, codeword_root, fold_holds, folds_hold,
    is_quotient, lemma_check_batch_failed, lemma_check_folds_failed, lemma_read_answers_failed,
    lemma_read_folds_failed, paths_hold, query_indices, quotient, read_answer, read_answers,
    read_folds,
};
use crate::binding::law_ancestor;
use crate::bits::{lemma_log2_two_to, reversed};
use crate::error::Error;
use crate::field::PrimeField;
use crate::hash::{HashFunction, Output, element_bytes};
use crate::merkle::{ancestor, climb, pair_digests, path_holds, tree_level};
use crate::multilinear::{eq_points, poly_at};
use crate::rounds::{Claiming, Shape, check_round};
use crate::soundness::{
    digests, elements, has_digests, has_elements, law_challenges_drawn, law_digests_read,
    law_elements_read, lemma_round_read, poly_from,
};
use crate::sums::{dot, lemma_sum_ext, sum_of};
use crate::transcript::{
    Check, Event, Oracle, lemma_read_commitments_failed, lemma_read_many_failed,
    lemma_squeeze_many_failed,
};

verus! {

/// The steps of `n` rounds of folding: three coefficients are sent, a challenge is drawn, and a root
/// is sent.
pub open spec fn folds_history(h: Seq<Event>, s: Seq<Event>, n: nat) -> Seq<Event>
    decreases n,
{
    if n == 0 {
        h
    } else {
        let k = 4 * (n - 1);
        (folds_history(h, s, (n - 1) as nat) + s.subrange(k, k + 3)).push(Event::Challenge).push(
            s[k + 3],
        )
    }
}

/// The polynomial of round `i`, the constant coefficient first: the coefficients are sent with the
/// highest one first.
pub open spec fn fold_poly(s: Seq<Event>, i: int) -> Seq<int> {
    seq![s[4 * i + 2]->Element_0, s[4 * i + 1]->Element_0, s[4 * i]->Element_0]
}

/// The claim that round `i` starts from.
pub open spec fn fold_claim(s: Seq<Event>, claim: int, point: Seq<int>, i: int) -> int {
    if i == 0 {
        claim
    } else {
        poly_at(fold_poly(s, i - 1), point[i - 1])
    }
}

/// In round `i` the polynomial adds up to the claim, the challenge is drawn after it, and a root
/// follows.
pub open spec fn fold_checked(
    p: int,
    ch: Oracle,
    h: Seq<Event>,
    s: Seq<Event>,
    claim: int,
    v: FoldChecking,
    i: int,
) -> bool {
    let c = fold_poly(s, i);
    &&& has_elements(s, 4 * i, 3)
    &&& s[4 * i + 3] is Commitment
    &&& cong(p, poly_at(c, 0) + poly_at(c, 1), fold_claim(s, claim, v.point, i))
    &&& v.point[i] == ch(folds_history(h, s, i as nat) + s.subrange(4 * i, 4 * i + 3))
    &&& v.oracles[i] == s[4 * i + 3]->Commitment_0
}

proof fn lemma_fold_checked_ext(
    p: int,
    ch: Oracle,
    h: Seq<Event>,
    s: Seq<Event>,
    claim: int,
    u: FoldChecking,
    v: FoldChecking,
    i: int,
)
    requires
        fold_checked(p, ch, h, s, claim, u, i),
        0 <= i < u.point.len() <= v.point.len(),
        i < u.oracles.len() <= v.oracles.len(),
        forall|j: int| 0 <= j < u.point.len() ==> u.point[j] == v.point[j],
        forall|j: int| 0 <= j < u.oracles.len() ==> u.oracles[j] == v.oracles[j],
    ensures
        fold_checked(p, ch, h, s, claim, v, i),
{
}

/// In a folding that is accepted, every round is checked, and a root is read in each.
pub proof fn law_folds_accepted(p: int, ch: Oracle, check: Check, claim: int, n: nat)
    requires
        p > 0,
        check_folds(p, ch, check, claim, n).check.err is None,
    ensures
        ({
            let v = check_folds(p, ch, check, claim, n);
            let (h, s) = (check.rx.hist, check.rx.stream);
            &&& check.err is None
            &&& 4 * n <= s.len()
            &&& v.point.len() == n
            &&& v.oracles.len() == n
            &&& forall|i: int| 0 <= i < n ==> #[trigger] fold_checked(p, ch, h, s, claim, v, i)
            &&& cong(p, v.claim, fold_claim(s, claim, v.point, n as int))
            &&& v.check.rx.stream == s.skip(4 * n as int)
            &&& v.check.rx.hist == folds_history(h, s, n)
        }),
    decreases n,
{
    let v = check_folds(p, ch, check, claim, n);
    let (h, s) = (check.rx.hist, check.rx.stream);
    if n == 0 {
        assert(s.skip(0) =~= s);
    } else {
        let m = (n - 1) as nat;
        let u = check_folds(p, ch, check, claim, m);
        if u.check.err is Some {
            lemma_check_folds_failed(p, ch, check, claim, m, n);
        }
        law_folds_accepted(p, ch, check, claim, m);
        let a = 4 * m as int;
        let sh = Shape { p, ch, degree: 2, descending: true };
        let w = Claiming { check: u.check, claim: u.claim, point: u.point };
        let t = check_round(sh, w);
        assert(t.check.err is None);
        lemma_round_read(sh, w, s, a);
        assert(poly_from(sh, s, a) =~= fold_poly(s, m as int));
        assert(t.check.rx.stream == s.skip(a + 3));
        assert(t.check.rx.stream[0] == s[a + 3]);
        assert(s.skip(a + 3).skip(1) =~= s.skip(a + 4));
        assert(v.point.drop_last() =~= u.point);
        assert(v.oracles.drop_last() =~= u.oracles);
        assert(fold_claim(s, claim, v.point, m as int) == fold_claim(s, claim, u.point, m as int));
        assert(fold_checked(p, ch, h, s, claim, v, m as int));
        assert forall|i: int| 0 <= i < n implies #[trigger] fold_checked(p, ch, h, s, claim, v, i) by {
            if i < m {
                assert(fold_checked(p, ch, h, s, claim, u, i));
                lemma_fold_checked_ext(p, ch, h, s, claim, u, v, i);
            }
        }
    }
}

/// Where the pair of the folded codeword `k` stands among those of one answer: a pair and the path
/// take two items, and one for each level above.
pub open spec fn fold_start(levels: nat, k: nat) -> int
    decreases k,
{
    if k == 0 {
        0
    } else {
        fold_start(levels, (k - 1) as nat) + 2 + (levels - k)
    }
}

/// How many items an answer takes.
pub open spec fn answer_len(levels: nat, rounds: nat) -> int {
    18 + 3 * levels + fold_start(levels, rounds)
}

/// The answer whose items stand from `a` on: a pair with its path, two pairs with the path of
/// both, six pairs with the path of all, and the pairs of the folded codewords with their paths.
pub open spec fn answer_from(s: Seq<Event>, a: int, levels: nat, rounds: nat) -> Answer {
    let b = a + 18 + 3 * levels;
    Answer {
        opened: Seq::new(
            18,
            |j: int|
                s[a + j + (if j < 2 {
                    0
                } else if j < 6 {
                    levels as int
                } else {
                    2 * levels as int
                })]->Element_0,
        ),
        path1: digests(s, a + 2, levels),
        path2: digests(s, a + 6 + levels, levels),
        path3: digests(s, a + 18 + 2 * levels, levels),
        pairs: Seq::new(rounds, |k: int| elements(s, b + fold_start(levels, k as nat), 2)),
        paths: Seq::new(
            rounds,
            |k: int| digests(s, b + fold_start(levels, k as nat) + 2, (levels - k - 1) as nat),
        ),
    }
}

proof fn lemma_folds_read(check: Check, s: Seq<Event>, b: int, levels: nat, n: nat)
    requires
        n <= levels,
        0 <= b <= s.len(),
        check.err is None,
        check.rx.stream == s.skip(b),
        read_folds(check, levels, n).0.err is None,
    ensures
        ({
            let (c, pairs, paths) = read_folds(check, levels, n);
            &&& 0 <= fold_start(levels, n)
            &&& b + fold_start(levels, n) <= s.len()
            &&& c.rx.stream == s.skip(b + fold_start(levels, n))
            &&& pairs == Seq::new(n, |k: int| elements(s, b + fold_start(levels, k as nat), 2))
            &&& paths == Seq::new(
                n,
                |k: int|
                    digests(s, b + fold_start(levels, k as nat) + 2, (levels - k - 1) as nat),
            )
        }),
    decreases n,
{
    let (c, pairs, paths) = read_folds(check, levels, n);
    if n == 0 {
        assert(pairs =~= Seq::new(0, |k: int| elements(s, b + fold_start(levels, k as nat), 2)));
        assert(paths =~= Seq::new(
            0,
            |k: int| digests(s, b + fold_start(levels, k as nat) + 2, (levels - k - 1) as nat),
        ));
    } else {
        let m = (n - 1) as nat;
        let (c0, u, w) = read_folds(check, levels, m);
        if c0.err is Some {
            lemma_read_folds_failed(check, levels, m, n);
        }
        lemma_folds_read(check, s, b, levels, m);
        let a = b + fold_start(levels, m);
        lemma_read_block(c0, s, a, 2, (levels - n) as nat);
        assert(pairs =~= Seq::new(n, |k: int| elements(s, b + fold_start(levels, k as nat), 2)));
        assert(paths =~= Seq::new(
            n,
            |k: int| digests(s, b + fold_start(levels, k as nat) + 2, (levels - k - 1) as nat),
        ));
    }
}

/// Elements and then digests that are read from `a` on.
pub proof fn lemma_read_block(c: Check, s: Seq<Event>, a: int, n: nat, m: nat)
    requires
        0 <= a <= s.len(),
        c.err is None,
        c.rx.stream == s.skip(a),
        c.read_many(n).0.read_commitments(m).0.err is None,
    ensures
        ({
            let (c1, e) = c.read_many(n);
            let (c2, d) = c1.read_commitments(m);
            &&& c1.err is None
            &&& has_elements(s, a, n as int)
            &&& has_digests(s, a + n, m as int)
            &&& e == elements(s, a, n)
            &&& d == digests(s, a + n, m)
            &&& c2.rx.stream == s.skip(a + n + m)
            &&& a + n + m <= s.len()
            &&& c2.rx.hist == c.rx.hist + s.subrange(a, a + n + m)
        }),
{
    let (c1, e) = c.read_many(n);
    let (c2, d) = c1.read_commitments(m);
    if c1.err is Some {
        lemma_read_commitments_failed(c1, 0, m);
    }
    law_elements_read(c, n);
    law_digests_read(c1, m);
    let (t, u) = (c.rx.stream, c1.rx.stream);
    assert forall|i: int| a <= i < a + n implies #[trigger] s[i] is Element by {
        assert(t[i - a] == s[i]);
    }
    assert(t.skip(n as int) =~= s.skip(a + n));
    assert forall|i: int| a + n <= i < a + n + m implies #[trigger] s[i] is Commitment by {
        assert(u[i - a - n] == s[i]);
    }
    assert(u.skip(m as int) =~= s.skip(a + n + m));
    assert(e =~= elements(s, a, n));
    assert(d =~= digests(s, a + n, m));
    assert(c.rx.hist + t.take(n as int) + u.take(m as int) =~= c.rx.hist + s.subrange(a, a + n + m));
}

proof fn lemma_answer_read(check: Check, s: Seq<Event>, a: int, levels: nat, rounds: nat)
    requires
        rounds <= levels,
        0 <= a <= s.len(),
        check.err is None,
        check.rx.stream == s.skip(a),
        read_answer(check, levels, rounds).0.err is None,
    ensures
        ({
            let (c, x) = read_answer(check, levels, rounds);
            &&& 0 <= answer_len(levels, rounds)
            &&& a + answer_len(levels, rounds) <= s.len()
            &&& c.rx.stream == s.skip(a + answer_len(levels, rounds))
            &&& x == answer_from(s, a, levels, rounds)
        }),
{
    let (c1, e1) = check.read_many(2);
    let (c2, path1) = c1.read_commitments(levels);
    let (c3, e2) = c2.read_many(4);
    let (c4, path2) = c3.read_commitments(levels);
    let (c5, e3) = c4.read_many(12);
    let (c6, path3) = c5.read_commitments(levels);
    let (c7, pairs, paths) = read_folds(c6, levels, rounds);
    if c6.err is Some {
        lemma_read_folds_failed(c6, levels, 0, rounds);
    }
    if c4.err is Some {
        lemma_read_many_failed(c4, 0, 12);
        lemma_read_commitments_failed(c4, 0, levels);
    }
    if c2.err is Some {
        lemma_read_many_failed(c2, 0, 4);
        lemma_read_commitments_failed(c2, 0, levels);
    }
    lemma_read_block(check, s, a, 2, levels);
    lemma_read_block(c2, s, a + 2 + levels, 4, levels);
    lemma_read_block(c4, s, a + 6 + 2 * levels, 12, levels);
    let b = a + 18 + 3 * levels;
    lemma_folds_read(c6, s, b, levels, rounds);
    let x = answer_from(s, a, levels, rounds);
    assert(e1 + e2 + e3 =~= x.opened);
}

proof fn lemma_answers_read(check: Check, levels: nat, rounds: nat, n: nat)
    requires
        rounds <= levels,
        check.err is None,
        read_answers(check, levels, rounds, n).0.err is None,
    ensures
        ({
            let (c, x) = read_answers(check, levels, rounds, n);
            let s = check.rx.stream;
            let len = answer_len(levels, rounds);
            &&& 0 <= n * len <= s.len()
            &&& c.rx.stream == s.skip(n * len)
            &&& x.len() == n
            &&& forall|i: int|
                0 <= i < n ==> #[trigger] x[i] == answer_from(s, i * len, levels, rounds)
        }),
    decreases n,
{
    let (c, x) = read_answers(check, levels, rounds, n);
    let s = check.rx.stream;
    let len = answer_len(levels, rounds);
    if n == 0 {
        assert(0 * len == 0) by (nonlinear_arith);
        assert(s.skip(0) =~= s);
    } else {
        let m = (n - 1) as nat;
        let (c0, y) = read_answers(check, levels, rounds, m);
        if c0.err is Some {
            lemma_read_answers_failed(check, levels, rounds, m, n);
        }
        lemma_answers_read(check, levels, rounds, m);
        lemma_answer_read(c0, s, m * len, levels, rounds);
        assert(n * len == m * len + len) by (nonlinear_arith)
            requires
                n == m + 1,
        ;
        assert forall|i: int| 0 <= i < n implies #[trigger] x[i] == answer_from(
            s,
            i * len,
            levels,
            rounds,
        ) by {
            if i < m {
                assert(x[i] == y[i]);
            }
        }
    }
}

/// The leaf, hashed up the path but for its last digest, gives the root, which is that last digest.
pub open spec fn leads_up<H: HashFunction>(leaf: Output, q: int, path: Seq<Output>, root: Output) -> bool {
    &&& path[path.len() - 1] == root
    &&& climb::<H>(leaf, q, path, (path.len() - 1) as nat) == root
}

/// The digest of `n` pairs, as two columns, of the elements from `from` on.
pub open spec fn pairs_digest<F: PrimeField, H: HashFunction>(e: Seq<int>, from: int, n: nat) -> Output {
    let left = Seq::new(n, |i: int| e[from + 2 * i]);
    let right = Seq::new(n, |i: int| e[from + 2 * i + 1]);
    H::digest(
        H::digest(element_bytes(left, F::repr_len()))@ + H::digest(
            element_bytes(right, F::repr_len()),
        )@,
    )
}

/// The pair of the folded codeword `k` leads to its root.
pub open spec fn fold_path_holds<F: PrimeField, H: HashFunction>(
    a: Answer,
    q: int,
    oracles: Seq<Output>,
    k: int,
) -> bool {
    leads_up::<H>(
        H::digest(element_bytes(seq![a.pairs[k][0], a.pairs[k][1]], F::repr_len())),
        q / (two_to((k + 1) as nat) as int),
        a.paths[k],
        oracles[k],
    )
}

/// In round `k`, the entry of the next codeword is the value at the challenge of the line through
/// the pair, which is the weighted sum of all opened pairs in the first round.
pub open spec fn fold_step_holds(
    p: int,
    seed: Seq<u8>,
    levels: nat,
    a: Answer,
    q: int,
    rc: Seq<int>,
    rs: Seq<int>,
    k: int,
) -> bool {
    let level = (levels - 1 - k) as nat;
    let at = q / (two_to(k as nat) as int);
    let x = table_entry(p, seed, level, reversed(at as nat, level) as int);
    let e0 = if k == 0 {
        sum_of(9, |i: int| rc[i] * a.opened[2 * i]) % p
    } else {
        a.pairs[k - 1][0]
    };
    let e1 = if k == 0 {
        sum_of(9, |i: int| rc[i] * a.opened[2 * i + 1]) % p
    } else {
        a.pairs[k - 1][1]
    };
    &&& x != 0
    &&& cong(p, (2 * x) * a.pairs[k][at % 2], x * (e0 + e1) + rs[k] * (e0 - e1))
}

/// All paths of the answer to one query lead to their roots.
pub open spec fn answer_paths<F: PrimeField, H: HashFunction>(
    rounds: nat,
    a: Answer,
    q: int,
    comm: Output,
    batch_comm_1: Output,
    batch_comm_2: Output,
    oracles: Seq<Output>,
) -> bool {
    &&& leads_up::<H>(
        H::digest(element_bytes(seq![a.opened[0], a.opened[1]], F::repr_len())),
        q,
        a.path1,
        comm,
    )
    &&& leads_up::<H>(pairs_digest::<F, H>(a.opened, 2, 2), q, a.path2, batch_comm_1)
    &&& leads_up::<H>(pairs_digest::<F, H>(a.opened, 6, 6), q, a.path3, batch_comm_2)
    &&& forall|k: int| 0 <= k < rounds ==> #[trigger] fold_path_holds::<F, H>(a, q, oracles, k)
}

/// All foldings of the answer to one query hold.
pub open spec fn answer_folds(
    p: int,
    seed: Seq<u8>,
    levels: nat,
    rc: Seq<int>,
    rs: Seq<int>,
    a: Answer,
    q: int,
) -> bool {
    forall|k: int|
        0 <= k < rs.len() ==> #[trigger] fold_step_holds(p, seed, levels, a, q, rc, rs, k)
}

/// All that is checked of the answer to one query.
pub open spec fn answer_checked<F: PrimeField, H: HashFunction>(
    p: int,
    seed: Seq<u8>,
    rounds: nat,
    levels: nat,
    rc: Seq<int>,
    rs: Seq<int>,
    a: Answer,
    q: int,
    comm: Output,
    batch_comm_1: Output,
    batch_comm_2: Output,
    oracles: Seq<Output>,
) -> bool {
    &&& answer_paths::<F, H>(rounds, a, q, comm, batch_comm_1, batch_comm_2, oracles)
    &&& answer_folds(p, seed, levels, rc, rs, a, q)
}

proof fn lemma_answer_paths<F: PrimeField, H: HashFunction>(
    rounds: nat,
    a: Answer,
    q: int,
    comm: Output,
    batch_comm_1: Output,
    batch_comm_2: Output,
    oracles: Seq<Output>,
)
    requires
        q >= 0,
    ensures
        paths_hold::<F, H>(a, q, rounds, comm, batch_comm_1, batch_comm_2, oracles)
            <==> answer_paths::<F, H>(rounds, a, q, comm, batch_comm_1, batch_comm_2, oracles),
{
    let e = a.opened;
    assert(Seq::new(2, |i: int| e[2 + 2 * i]) =~= crate::basefold_batch::strided(e, 2, 2));
    assert(Seq::new(2, |i: int| e[2 + 2 * i + 1]) =~= crate::basefold_batch::strided(e, 3, 2));
    assert(Seq::new(6, |i: int| e[6 + 2 * i]) =~= crate::basefold_batch::strided(e, 6, 6));
    assert(Seq::new(6, |i: int| e[6 + 2 * i + 1]) =~= crate::basefold_batch::strided(e, 7, 6));
    assert forall|k: int| 0 <= k < rounds implies (fold_path_holds::<F, H>(a, q, oracles, k)
        <==> path_holds::<H>(
        crate::hash::digest_elements::<F, H>(seq![a.pairs[k][0], a.pairs[k][1]]),
        ancestor(q, (k + 1) as nat),
        #[trigger] a.paths[k],
        oracles[k],
    )) by {
        law_ancestor(q, (k + 1) as nat);
    }
    if paths_hold::<F, H>(a, q, rounds, comm, batch_comm_1, batch_comm_2, oracles) {
        assert forall|k: int| 0 <= k < rounds implies #[trigger] fold_path_holds::<F, H>(
            a,
            q,
            oracles,
            k,
        ) by {
            let path = a.paths[k];
        }
    }
    if answer_paths::<F, H>(rounds, a, q, comm, batch_comm_1, batch_comm_2, oracles) {
        assert forall|k: int| 0 <= k < rounds implies path_holds::<H>(
            crate::hash::digest_elements::<F, H>(seq![a.pairs[k][0], a.pairs[k][1]]),
            ancestor(q, (k + 1) as nat),
            #[trigger] a.paths[k],
            oracles[k],
        ) by {
            assert(fold_path_holds::<F, H>(a, q, oracles, k));
        }
    }
}

proof fn lemma_answer_folds(
    p: int,
    seed: Seq<u8>,
    levels: nat,
    rc: Seq<int>,
    rs: Seq<int>,
    a: Answer,
    q: int,
)
    requires
        q >= 0,
    ensures
        folds_hold(p, seed, levels, a, q, rc, rs) <==> answer_folds(p, seed, levels, rc, rs, a, q),
{
    assert forall|k: int| 0 <= k < rs.len() implies (#[trigger] fold_step_holds(
        p,
        seed,
        levels,
        a,
        q,
        rc,
        rs,
        k,
    ) <==> fold_holds(p, seed, levels, a, q, rc, rs, k)) by {
        law_ancestor(q, k as nat);
    }
    if answer_folds(p, seed, levels, rc, rs, a, q) {
        assert forall|k: int| 0 <= k < rs.len() implies #[trigger] fold_holds(
            p,
            seed,
            levels,
            a,
            q,
            rc,
            rs,
            k,
        ) by {
            assert(fold_step_holds(p, seed, levels, a, q, rc, rs, k));
        }
    }
    if folds_hold(p, seed, levels, a, q, rc, rs) {
        assert forall|k: int| 0 <= k < rs.len() implies #[trigger] fold_step_holds(
            p,
            seed,
            levels,
            a,
            q,
            rc,
            rs,
            k,
        ) by {
            assert(fold_holds(p, seed, levels, a, q, rc, rs, k));
        }
    }
}

/// The root of the tree over `two_to(n)` entries that are all `f`.
pub open spec fn constant_root<F: PrimeField, H: HashFunction>(f: int, n: nat) -> Output {
    let leaf = H::digest(element_bytes(seq![f, f], F::repr_len()));
    tree_level::<H>(Seq::new(two_to((n - 1) as nat), |i: int| leaf), (n - 1) as nat)[0]
}

proof fn lemma_constant_root<F: PrimeField, H: HashFunction>(f: int, n: nat)
    requires
        n >= 1,
    ensures
        codeword_root::<F, H>(Seq::new(two_to(n), |i: int| f)) == constant_root::<F, H>(f, n),
{
    let cw = Seq::new(two_to(n), |i: int| f);
    lemma_log2_two_to(n);
    let m = (n - 1) as nat;
    assert(two_to(n) == 2 * two_to(m));
    let leaf = H::digest(element_bytes(seq![f, f], F::repr_len()));
    assert(pair_digests::<F, H>(cw) =~= Seq::new(two_to(m), |i: int| leaf)) by {
        assert forall|i: int| 0 <= i < two_to(m) implies pair_digests::<F, H>(cw)[i] == leaf by {
            assert(seq![cw[2 * i], cw[2 * i + 1]] =~= seq![f, f]);
        }
    }
}

/// The answer to query `i`, at its place in the proof after the rounds of folding, holds for the
/// index that is drawn for it after these.
pub open spec fn query_checked<F: PrimeField, H: HashFunction>(
    p: int,
    ch: Oracle,
    s: Seq<Event>,
    seed: Seq<u8>,
    rounds: nat,
    levels: nat,
    rc: Seq<int>,
    v: FoldChecking,
    comm: Output,
    batch_comm_1: Output,
    batch_comm_2: Output,
    i: int,
) -> bool {
    let drawn = ch(v.check.rx.hist + Seq::new(i as nat, |j: int| Event::Challenge));
    answer_checked::<F, H>(
        p,
        seed,
        rounds,
        levels,
        rc,
        v.point,
        answer_from(s, 4 * rounds + i * answer_len(levels, rounds), levels, rounds),
        (drawn % 0x1_0000_0000) % (two_to((levels - 1) as nat) as int),
        comm,
        batch_comm_1,
        batch_comm_2,
        v.oracles,
    )
}

/// `d` is reduced, and times `eq` it is `claim`.
pub open spec fn times_gives(p: int, d: int, eq: int, claim: int) -> bool {
    &&& 0 <= d < p
    &&& cong(p, d * eq, claim)
}

/// If `claim` has a quotient by `eq`, then `f` is one.
pub open spec fn is_quotient_if_any(p: int, claim: int, eq: int, f: int) -> bool {
    (exists|d: int| #[trigger] times_gives(p, d, eq, claim)) ==> times_gives(p, f, eq, claim)
}

/// An opening in the foldable code that is accepted: the sum-check starts from the weighted sum of
/// the evaluations; its last claim is a value times the basis polynomial of the point, which does
/// not vanish, and the last root is that of a codeword of this value; and for every query that is
/// drawn then, all paths and all foldings of the answer hold.
pub proof fn law_batch_accepted<F: PrimeField, H: HashFunction>(
    p: int,
    ch: Oracle,
    check: Check,
    seed: Seq<u8>,
    num_vars: nat,
    log_rate: nat,
    num_queries: nat,
    rc: Seq<int>,
    point: Seq<int>,
    comm: Output,
    batch_comm_1: Output,
    batch_comm_2: Output,
    evals: Seq<int>,
)
    requires
        p > 0,
        num_vars >= 1,
        log_rate >= 1,
        rc.len() == 9,
        evals.len() == 9,
        check_batch::<F, H>(
            p,
            ch,
            check,
            seed,
            num_vars,
            log_rate,
            num_queries,
            rc,
            point,
            comm,
            batch_comm_1,
            batch_comm_2,
            evals,
        ).err is None,
    ensures
        ({
            let levels = num_vars + log_rate;
            let s = check.rx.stream;
            let claim = sum_of(9, |i: int| rc[i] * evals[i]) % p;
            let v = check_folds(p, ch, check, claim, num_vars);
            let eq = eq_points(point, v.point);
            &&& check.err is None
            &&& v.check.err is None
            &&& !cong(p, eq, 0)
            &&& exists|f: int|
                v.oracles[num_vars - 1] == #[trigger] constant_root::<F, H>(f, log_rate)
                    && is_quotient_if_any(p, v.claim, eq % p, f)
            &&& forall|i: int|
                0 <= i < num_queries ==> #[trigger] query_checked::<F, H>(
                    p,
                    ch,
                    s,
                    seed,
                    num_vars,
                    levels,
                    rc,
                    v,
                    comm,
                    batch_comm_1,
                    batch_comm_2,
                    i,
                )
        }),
{
    let levels = num_vars + log_rate;
    let s = check.rx.stream;
    let claim = dot(rc, evals) % p;
    lemma_sum_ext(9, |i: int| rc[i] * evals[i], |i: int| rc[i] * evals[i]);
    let v = check_folds(p, ch, check, claim, num_vars);
    let eq = eq_points(point, v.point) % p;
    let d = quotient(p, v.claim, eq);
    let last = Seq::new(two_to(log_rate), |i: int| quotient(p, v.claim, eq));
    let c1 = v.check.require(eq != 0, Error::Folding);
    let c2 = c1.require(codeword_root::<F, H>(last) == v.oracles.last(), Error::FinalOracle);
    let (c3, drawn) = c2.squeeze_many(ch, num_queries);
    let (c4, answers) = read_answers(c3, levels, num_vars, num_queries);
    if c3.err is Some {
        lemma_read_answers_failed(c3, levels, num_vars, 0, num_queries);
    }
    if c2.err is Some {
        lemma_squeeze_many_failed(c2, ch, num_queries);
    }
    law_folds_accepted(p, ch, check, claim, num_vars);
    law_challenges_drawn(c2, ch, num_queries);
    crate::algebra::lemma_mod_small(p, 0);
    lemma_constant_root::<F, H>(d, log_rate);
    assert(last =~= Seq::new(two_to(log_rate), |i: int| d));
    assert(v.oracles[num_vars - 1] == constant_root::<F, H>(d, log_rate));
    assert(is_quotient_if_any(p, v.claim, eq, d)) by {
        if exists|x: int| #[trigger] times_gives(p, x, eq, v.claim) {
            let x = choose|x: int| #[trigger] times_gives(p, x, eq, v.claim);
            assert(is_quotient(p, v.claim, eq, x));
        }
    }
    lemma_answers_read(c3, levels, num_vars, num_queries);
    let len = answer_len(levels, num_vars);
    let cap = two_to((levels - 1) as nat) as int;
    lemma_two_to_positive((levels - 1) as nat);
    let qs = query_indices(drawn, cap);
    let t = c3.rx.stream;
    assert forall|i: int| 0 <= i < num_queries implies #[trigger] query_checked::<F, H>(
        p,
        ch,
        s,
        seed,
        num_vars,
        levels,
        rc,
        v,
        comm,
        batch_comm_1,
        batch_comm_2,
        i,
    ) by {
        assert(drawn[i] == ch(v.check.rx.hist + Seq::new(i as nat, |j: int| Event::Challenge)));
        crate::algebra::lemma_mod_canonical(cap, drawn[i] % 0x1_0000_0000);
        assert(answers[i] == answer_from(t, i * len, levels, num_vars));
        assert(paths_hold::<F, H>(
            answers[i],
            qs[i],
            num_vars,
            comm,
            batch_comm_1,
            batch_comm_2,
            v.oracles,
        ));
        assert(folds_hold(p, seed, levels, answers[i], qs[i], rc, v.point));
        lemma_answer_paths::<F, H>(
            num_vars,
            answers[i],
            qs[i],
            comm,
            batch_comm_1,
            batch_comm_2,
            v.oracles,
        );
        lemma_answer_folds(p, seed, levels, rc, v.point, answers[i], qs[i]);
        lemma_fold_start(levels, num_vars, num_vars);
        assert(0 <= i * len && i * len + len <= num_queries * len) by (nonlinear_arith)
            requires
                0 <= i < num_queries,
                0 <= len,
        ;
        lemma_answer_shift(s, t, 4 * num_vars as int, i * len, levels, num_vars);
    }
}

proof fn lemma_answer_shift(s: Seq<Event>, t: Seq<Event>, a: int, b: int, levels: nat, rounds: nat)
    requires
        0 <= a <= s.len(),
        t == s.skip(a),
        0 <= b,
        rounds <= levels,
        b + answer_len(levels, rounds) <= t.len(),
    ensures
        answer_from(t, b, levels, rounds) == answer_from(s, a + b, levels, rounds),
{
    let (x, y) = (answer_from(t, b, levels, rounds), answer_from(s, a + b, levels, rounds));
    lemma_fold_start(levels, rounds, rounds);
    assert(x.opened =~= y.opened);
    assert(x.path1 =~= y.path1);
    assert(x.path2 =~= y.path2);
    assert(x.path3 =~= y.path3);
    assert forall|k: int| 0 <= k < rounds implies x.pairs[k] == y.pairs[k] && x.paths[k] == y.paths[k] by {
        lemma_fold_start(levels, k as nat, rounds);
        lemma_fold_start(levels, (k + 1) as nat, rounds);
        assert(x.pairs[k] =~= y.pairs[k]);
        assert(x.paths[k] =~= y.paths[k]);
    }
    assert(x.pairs =~= y.pairs);
    assert(x.paths =~= y.paths);
}

proof fn lemma_fold_start(levels: nat, k: nat, n: nat)
    requires
        k <= n <= levels,
    ensures
        0 <= fold_start(levels, k) <= fold_start(levels, n),
    decreases n,
{
    if k < n {
        lemma_fold_start(levels, k, (n - 1) as nat);
    } else if k > 0 {
        lemma_fold_start(levels, (k - 1) as nat, (k - 1) as nat);
    }
}

/// A proof is accepted for one list of roots at most.
pub proof fn law_batch_one_root<F: PrimeField, H: HashFunction>(
    p: int,
    ch: Oracle,
    check: Check,
    seed: Seq<u8>,
    num_vars: nat,
    log_rate: nat,
    num_queries: nat,
    rc: Seq<int>,
    point: Seq<int>,
    evals: Seq<int>,
    a: Seq<Output>,
    b: Seq<Output>,
)
    requires
        p > 0,
        num_vars >= 1,
        log_rate >= 1,
        num_queries >= 1,
        rc.len() == 9,
        evals.len() == 9,
        a.len() == 3,
        b.len() == 3,
        check_batch::<F, H>(
            p,
            ch,
            check,
            seed,
            num_vars,
            log_rate,
            num_queries,
            rc,
            point,
            a[0],
            a[1],
            a[2],
            evals,
        ).err is None,
        check_batch::<F, H>(
            p,
            ch,
            check,
            seed,
            num_vars,
            log_rate,
            num_queries,
            rc,
            point,
            b[0],
            b[1],
            b[2],
            evals,
        ).err is None,
    ensures
        a == b,
{
    let levels = num_vars + log_rate;
    let s = check.rx.stream;
    law_batch_accepted::<F, H>(
        p,
        ch,
        check,
        seed,
        num_vars,
        log_rate,
        num_queries,
        rc,
        point,
        a[0],
        a[1],
        a[2],
        evals,
    );
    law_batch_accepted::<F, H>(
        p,
        ch,
        check,
        seed,
        num_vars,
        log_rate,
        num_queries,
        rc,
        point,
        b[0],
        b[1],
        b[2],
        evals,
    );
    let claim = sum_of(9, |i: int| rc[i] * evals[i]) % p;
    let v = check_folds(p, ch, check, claim, num_vars);
    assert(query_checked::<F, H>(p, ch, s, seed, num_vars, levels, rc, v, a[0], a[1], a[2], 0));
    assert(query_checked::<F, H>(p, ch, s, seed, num_vars, levels, rc, v, b[0], b[1], b[2], 0));
    assert(a =~= b);
}

/// An opening in the foldable code that is refused: for the first of the rounds that fails; for a
/// basis polynomial that vanishes; for a last root that is not that of a codeword of the value that
/// is left; for a path that does not lead to its root; or for a folding that does not hold.
pub proof fn law_batch_refused<F: PrimeField, H: HashFunction>(
    p: int,
    ch: Oracle,
    check: Check,
    seed: Seq<u8>,
    num_vars: nat,
    log_rate: nat,
    num_queries: nat,
    rc: Seq<int>,
    point: Seq<int>,
    comm: Output,
    batch_comm_1: Output,
    batch_comm_2: Output,
    evals: Seq<int>,
)
    requires
        p > 0,
        num_vars >= 1,
        log_rate >= 1,
        rc.len() == 9,
        evals.len() == 9,
        check.err is None,
    ensures
        ({
            let levels = num_vars + log_rate;
            let claim = sum_of(9, |i: int| rc[i] * evals[i]) % p;
            let v = check_folds(p, ch, check, claim, num_vars);
            let eq = eq_points(point, v.point);
            let err = check_batch::<F, H>(
                p,
                ch,
                check,
                seed,
                num_vars,
                log_rate,
                num_queries,
                rc,
                point,
                comm,
                batch_comm_1,
                batch_comm_2,
                evals,
            ).err;
            let last = v.oracles[num_vars - 1];
            let (c3, drawn) = v.check.squeeze_many(ch, num_queries);
            let (c4, answers) = read_answers(c3, levels, num_vars, num_queries);
            let cap = two_to((levels - 1) as nat) as int;
            let found = exists|f: int| #[trigger]
                times_gives(p, f, eq % p, v.claim) && last == constant_root::<F, H>(f, log_rate);
            let divides = exists|f: int| #[trigger] times_gives(p, f, eq % p, v.claim);
            &&& v.check.err is Some ==> err == v.check.err
            &&& v.check.err is None && cong(p, eq, 0) ==> err == Some(Error::Folding)
            &&& v.check.err is None && !cong(p, eq, 0) && divides && !found ==> err == Some(
                Error::FinalOracle,
            )
            &&& err is None || err == Some(Error::Folding) ==> v.check.err is None && (cong(p, eq, 0)
                || c4.err is None && forall|i: int|
                0 <= i < num_queries ==> answer_paths::<F, H>(
                    num_vars,
                    #[trigger] answers[i],
                    (drawn[i] % 0x1_0000_0000) % cap,
                    comm,
                    batch_comm_1,
                    batch_comm_2,
                    v.oracles,
                ))
        }),
{
    let levels = num_vars + log_rate;
    let claim = dot(rc, evals) % p;
    lemma_sum_ext(9, |i: int| rc[i] * evals[i], |i: int| rc[i] * evals[i]);
    let v = check_folds(p, ch, check, claim, num_vars);
    let eq = eq_points(point, v.point) % p;
    let d = quotient(p, v.claim, eq);
    let last = Seq::new(two_to(log_rate), |i: int| quotient(p, v.claim, eq));
    crate::algebra::lemma_mod_small(p, 0);
    if v.check.err is Some {
        lemma_rounds_error(p, ch, check, claim, num_vars);
        lemma_check_batch_failed::<F, H>(
            p,
            ch,
            check,
            seed,
            num_vars,
            log_rate,
            num_queries,
            rc,
            point,
            comm,
            batch_comm_1,
            batch_comm_2,
            evals,
        );
    } else {
        law_folds_accepted(p, ch, check, claim, num_vars);
        let c1 = v.check.require(eq != 0, Error::Folding);
        let c2 = c1.require(codeword_root::<F, H>(last) == v.oracles.last(), Error::FinalOracle);
        if c2.err is Some {
            lemma_squeeze_many_failed(c2, ch, num_queries);
            lemma_read_answers_failed(c2, levels, num_vars, 0, num_queries);
        }
        lemma_constant_root::<F, H>(d, log_rate);
        assert(last =~= Seq::new(two_to(log_rate), |i: int| d));
        if exists|f: int| #[trigger] times_gives(p, f, eq, v.claim) {
            let f = choose|f: int| #[trigger] times_gives(p, f, eq, v.claim);
            assert(is_quotient(p, v.claim, eq, f));
            assert(times_gives(p, d, eq, v.claim));
        }
        if c2.err is None {
            let (c3, drawn) = c2.squeeze_many(ch, num_queries);
            law_challenges_drawn(c2, ch, num_queries);
            let (c4, answers) = read_answers(c3, levels, num_vars, num_queries);
            let cap = two_to((levels - 1) as nat) as int;
            lemma_two_to_positive((levels - 1) as nat);
            let qs = query_indices(drawn, cap);
            if c4.err is None {
                assert forall|i: int| 0 <= i < num_queries && paths_hold::<F, H>(
                    #[trigger] answers[i],
                    qs[i],
                    num_vars,
                    comm,
                    batch_comm_1,
                    batch_comm_2,
                    v.oracles,
                ) implies answer_paths::<F, H>(
                    num_vars,
                    answers[i],
                    (drawn[i] % 0x1_0000_0000) % cap,
                    comm,
                    batch_comm_1,
                    batch_comm_2,
                    v.oracles,
                ) by {
                    crate::algebra::lemma_mod_canonical(cap, drawn[i] % 0x1_0000_0000);
                    lemma_answer_paths::<F, H>(
                        num_vars,
                        answers[i],
                        qs[i],
                        comm,
                        batch_comm_1,
                        batch_comm_2,
                        v.oracles,
                    );
                }
            } else {
                lemma_answers_error(c3, levels, num_vars, num_queries);
            }
        }
    }
}

/// The rounds of folding fail for want of items, or for a polynomial that does not add up.
proof fn lemma_rounds_error(p: int, ch: Oracle, check: Check, claim: int, n: nat)
    requires
        check.err is None,
    ensures
        ({
            let err = check_folds(p, ch, check, claim, n).check.err;
            err is None || err == Some(Error::Transcript) || err == Some(Error::SumCheck)
        }),
    decreases n,
{
    if n > 0 {
        lemma_rounds_error(p, ch, check, claim, (n - 1) as nat);
        let u = check_folds(p, ch, check, claim, (n - 1) as nat);
        lemma_read_error(u.check, 3);
    }
}

/// Answers that are not there are missed for nothing else.
proof fn lemma_answers_error(check: Check, levels: nat, rounds: nat, n: nat)
    requires
        check.err is None,
        read_answers(check, levels, rounds, n).0.err is Some,
    ensures
        read_answers(check, levels, rounds, n).0.err == Some(Error::Transcript),
    decreases n,
{
    if n > 0 {
        let c = read_answers(check, levels, rounds, (n - 1) as nat).0;
        if c.err is Some {
            lemma_answers_error(check, levels, rounds, (n - 1) as nat);
            lemma_read_answers_failed(check, levels, rounds, (n - 1) as nat, n);
        } else {
            let c1 = c.read_many(2).0;
            let c2 = c1.read_commitments(levels).0;
            let c3 = c2.read_many(4).0;
            let c4 = c3.read_commitments(levels).0;
            let c5 = c4.read_many(12).0;
            let c6 = c5.read_commitments(levels).0;
            lemma_read_error(c, 2);
            lemma_read_error(c1, levels);
            lemma_read_error(c2, 4);
            lemma_read_error(c3, levels);
            lemma_read_error(c4, 12);
            lemma_read_error(c5, levels);
            lemma_folds_error(c6, levels, rounds);
        }
    }
}

proof fn lemma_folds_error(check: Check, levels: nat, n: nat)
    ensures
        check.err is None ==> read_folds(check, levels, n).0.err is None || read_folds(
            check,
            levels,
            n,
        ).0.err == Some(Error::Transcript),
        check.err is Some ==> read_folds(check, levels, n).0 == check,
    decreases n,
{
    if n > 0 {
        lemma_folds_error(check, levels, (n - 1) as nat);
        let c0 = read_folds(check, levels, (n - 1) as nat).0;
        lemma_read_error(c0, 2);
        lemma_read_error(c0.read_many(2).0, (levels - n) as nat);
    }
}

proof fn lemma_read_error(c: Check, n: nat)
    ensures
        c.err is Some ==> c.read_many(n).0 == c && c.read_commitments(n).0 == c,
        c.err is None ==> c.read_many(n).0.err is None || c.read_many(n).0.err == Some(
            Error::Transcript,
        ),
        c.err is None ==> c.read_commitments(n).0.err is None || c.read_commitments(n).0.err == Some(
            Error::Transcript,
        ),
{
    if c.err is Some {
        lemma_read_many_failed(c, 0, n);
        lemma_read_commitments_failed(c, 0, n);
    } else {
        law_elements_read(c, n);
        law_digests_read(c, n);
    }
}

} // verus!
