//! Opening several polynomials of a foldable code at one point.
use vstd::prelude::*;
use vstd::arithmetic::div_mod::lemma_add_mod_noop;
use crate::algebra::{
    cong, lemma_canonical_unique, lemma_cancel_invertible, lemma_cong_add, lemma_cong_mod,
    lemma_cong_mul, lemma_cong_sub, lemma_mod_small, lemma_two_to_monotone, lemma_two_to_positive,
    two_to,
};
use crate::basefold::{
    BasefoldCommitment, BasefoldProverParams, BasefoldVerifierParams, TableStream, Type1Polynomial,
    basefold_one_round_by_interpolation_weights, bit_reversed, encode,
    evaluate_over_foldable_domain, fold_codeword, lemma_encode_len, query_point,
    reverse_index_bits_in_place, sizes_fit, table_entry, weight_points, weight_values,
};
use crate::bits::{
    is_power_of_two, lemma_log2_two_to, lemma_reversed_bound, log2_of, pow_two, reverse_bits,
    reversed,
};
use crate::brakingbase_helper::{divided, eq, evaluate_eq, inner_product};
use crate::combiners::{PairCombiner, pair_comb};
use crate::error::{Error, outcome};
use crate::field::{PrimeField, copy_elements, repeat_element, vals, vals2};
use crate::hash::{HashFunction, Output, digest_elements, digest_pair, hash_elements, same_output};
use crate::indices::{element_index, index_of};
use crate::merkle::{
    ancestor, authenticate_merkle_path, authenticate_merkle_path_hash, batch_merkelize,
    column_digests, column_tree, element_tree, lemma_ancestor_bound, lemma_tree_level_len,
    level_above, merkelize, pair_digests, path_holds, tree_path, tree_view, write_merkle_path,
};
use crate::multilinear::{basis, eq_points, eq_prod};
use crate::rounds::{
    Claiming, Combiner, Proving, Shape, check_round, prove_round, sum_check_round, uniform,
};
use crate::sums::{dot, lemma_sum_step, sum_of};
use crate::transcript::{
    Check, Oracle, TranscriptRead, TranscriptWrite, Tx, challenges, checking, read_challenges,
    read_commitments, read_field_elements, squeeze_challenges, write_field_elements,
};

verus! {

/// A commitment to several polynomials: their codewords, the Merkle tree over the columns of
/// these, and the polynomials.
#[derive(Clone, Debug)]
pub struct BasefoldBatchCommitment<F: PrimeField> {
    pub codewords: Vec<Type1Polynomial<F>>,
    pub codeword_tree: Vec<Vec<Output>>,
    pub bh_evals: Vec<Type1Polynomial<F>>,
}

/// The values of several polynomials.
pub open spec fn poly_values<F: PrimeField>(v: Seq<Type1Polynomial<F>>) -> Seq<Seq<int>> {
    Seq::new(v.len(), |i: int| vals(v[i].poly@))
}

/// Commits to polynomials that are given by their values on the hypercube; these are left in
/// bit-reversed order.
pub fn basefold_batch_commit<F: PrimeField, H: HashFunction>(
    pp: &BasefoldProverParams<F>,
    polys: &mut Vec<Vec<F>>,
) -> (r: BasefoldBatchCommitment<F>)
    requires
        pp.wf(),
        old(polys)@.len() >= 1,
        forall|i: int|
            0 <= i < old(polys)@.len() ==> (#[trigger] old(polys)@[i])@.len() == two_to(
                pp.num_vars as nat,
            ),
    ensures
        final(polys)@.len() == old(polys)@.len(),
        forall|i: int|
            0 <= i < old(polys)@.len() ==> (#[trigger] final(polys)@[i])@ == bit_reversed(
                old(polys)@[i]@,
            ),
        r.bh_evals@.len() == old(polys)@.len(),
        forall|i: int|
            0 <= i < old(polys)@.len() ==> (#[trigger] r.bh_evals@[i]).poly@ == old(polys)@[i]@,
        r.codewords@.len() == old(polys)@.len(),
        forall|i: int|
            0 <= i < old(polys)@.len() ==> vals((#[trigger] r.codewords@[i]).poly@) == encode(
                F::modulus(),
                vals2(pp.table@),
                pp.log_rate as nat,
                vals(bit_reversed(old(polys)@[i]@)),
            ),
        tree_view(r.codeword_tree@) == column_tree::<F, H>(poly_values(r.codewords@)),
{
    let ghost n = pp.num_vars as nat;
    let ghost before = polys@;
    let count = polys.len();
    let mut bh_evals: Vec<Type1Polynomial<F>> = Vec::new();
    let mut codewords: Vec<Type1Polynomial<F>> = Vec::new();
    let mut words: Vec<Vec<F>> = Vec::new();
    let mut reversed_polys: Vec<Vec<F>> = Vec::new();
    let mut i: usize = 0;
    proof {
        lemma_log2_two_to(n);
        lemma_two_to_positive(n);
    }
    while i < count
        invariant
            i <= count,
            count == polys@.len(),
            polys@ == before,
            pp.wf(),
            n == pp.num_vars as nat,
            is_power_of_two(two_to(n)),
            log2_of(two_to(n)) == n,
            two_to(n) >= 1,
            forall|i: int| 0 <= i < before.len() ==> (#[trigger] before[i])@.len() == two_to(n),
            bh_evals@.len() == i,
            codewords@.len() == i,
            words@.len() == i,
            reversed_polys@.len() == i,
            forall|j: int| 0 <= j < i ==> (#[trigger] bh_evals@[j]).poly@ == before[j]@,
            forall|j: int| 0 <= j < i ==> (#[trigger] reversed_polys@[j])@ == bit_reversed(before[j]@),
            forall|j: int|
                0 <= j < i ==> vals((#[trigger] codewords@[j]).poly@) == encode(
                    F::modulus(),
                    vals2(pp.table@),
                    pp.log_rate as nat,
                    vals(bit_reversed(before[j]@)),
                ),
            forall|j: int| 0 <= j < i ==> (#[trigger] words@[j])@ == codewords@[j].poly@,
            forall|j: int|
                0 <= j < i ==> (#[trigger] words@[j])@.len() == two_to(
                    (pp.log_rate + pp.num_vars) as nat,
                ),
        decreases count - i,
    {
        assert(before[i as int]@.len() == two_to(n));
        bh_evals.push(Type1Polynomial { poly: copy_elements(&polys[i]) });
        let mut p = copy_elements(&polys[i]);
        reverse_index_bits_in_place(&mut p);
        let codeword = evaluate_over_foldable_domain(pp.log_rate, &p, &pp.table);
        proof {
            lemma_encode_len(F::modulus(), vals2(pp.table@), pp.log_rate as nat, vals(p@), n);
            assert(vals(codeword@).len() == codeword@.len());
        }
        words.push(copy_elements(&codeword));
        codewords.push(Type1Polynomial { poly: codeword });
        reversed_polys.push(p);
        i += 1;
    }
    proof {
        let m = (pp.log_rate + pp.num_vars) as nat;
        lemma_log2_two_to(m);
        lemma_two_to_positive(m);
        assert(words@[0]@.len() == two_to(m));
    }
    let codeword_tree = batch_merkelize::<F, H>(&words);
    proof {
        assert(vals2(words@) =~= poly_values(codewords@)) by {
            assert forall|j: int| 0 <= j < words@.len() implies vals2(words@)[j] == poly_values(codewords@)[j] by {
                assert(words@[j]@ == codewords@[j].poly@);
            }
        }
    }
    *polys = reversed_polys;
    BasefoldBatchCommitment { codewords, codeword_tree, bh_evals }
}

/// The weighted sum of the first `n` entries of several vectors.
pub open spec fn combine(p: int, rc: Seq<int>, vs: Seq<Seq<int>>, n: nat) -> Seq<int> {
    Seq::new(n, |j: int| sum_of(vs.len(), |i: int| rc[i] * vs[i][j]) % p)
}

/// Computes a weighted sum of vectors.
pub fn combine_vectors<F: PrimeField>(rc: &Vec<F>, vs: &Vec<Vec<F>>, n: usize) -> (r: Vec<F>)
    requires
        rc@.len() >= vs@.len(),
        forall|i: int| 0 <= i < vs@.len() ==> (#[trigger] vs@[i])@.len() >= n,
    ensures
        vals(r@) == combine(F::modulus(), vals(rc@), vals2(vs@), n as nat),
{
    let ghost p = F::modulus();
    let ghost c = vals(rc@);
    let ghost v = vals2(vs@);
    let mut r: Vec<F> = Vec::new();
    let mut j: usize = 0;
    let count = vs.len();
    while j < n
        invariant
            j <= n,
            count == vs@.len(),
            rc@.len() >= vs@.len(),
            forall|i: int| 0 <= i < vs@.len() ==> (#[trigger] vs@[i])@.len() >= n,
            p == F::modulus(),
            c == vals(rc@),
            v == vals2(vs@),
            r@.len() == j,
            forall|k: int|
                0 <= k < j ==> (#[trigger] r@[k]).value() == sum_of(count as nat, |i: int| c[i] * v[i][k]) % p,
        decreases n - j,
    {
        let mut acc = F::zero();
        let mut i: usize = 0;
        let ghost f = |i: int| c[i] * v[i][j as int];
        proof {
            F::lemma_modulus();
            lemma_mod_small(p, 0);
            lemma_sum_step(0, f);
        }
        while i < count
            invariant
                i <= count,
                j < n,
                count == vs@.len(),
                rc@.len() >= vs@.len(),
                forall|i: int| 0 <= i < vs@.len() ==> (#[trigger] vs@[i])@.len() >= n,
                p == F::modulus(),
                p > 6,
                c == vals(rc@),
                v == vals2(vs@),
                f == (|i: int| c[i] * v[i][j as int]),
                acc.value() == sum_of(i as nat, f) % p,
            decreases count - i,
        {
            assert(vs@[i as int]@.len() >= n);
            let t = rc[i].mul(vs[i][j]);
            let next = acc.add(t);
            proof {
                assert(v[i as int] == vals(vs@[i as int]@));
                lemma_sum_step(i as nat, f);
                lemma_add_mod_noop(sum_of(i as nat, f), f(i as int), p);
            }
            acc = next;
            i += 1;
        }
        r.push(acc);
        j += 1;
    }
    assert(vals(r@) =~= combine(p, c, v, n as nat));
    r
}

/// The shape of the sum-check that runs beside the folding.
pub open spec fn fold_shape(p: int, ch: Oracle) -> Shape {
    Shape { p, ch, degree: 2, descending: true }
}

/// The points of all levels of the table.
pub open spec fn all_points<F: PrimeField>(table: Seq<Vec<(F, F)>>) -> Seq<Seq<int>> {
    Seq::new(table.len(), |l: int| weight_points(table[l]@))
}

/// The weights of all levels of the table.
pub open spec fn all_weights<F: PrimeField>(table: Seq<Vec<(F, F)>>) -> Seq<Seq<int>> {
    Seq::new(table.len(), |l: int| weight_values(table[l]@))
}

/// The root of the tree over a codeword.
pub open spec fn codeword_root<F: PrimeField, H: HashFunction>(cw: Seq<int>) -> Output {
    element_tree::<F, H>(cw)[log2_of(cw.len()) - 1][0]
}

/// Where the prover stands in the folding: the last entry of `codewords` is the current one.
pub struct Folding {
    pub tx: Tx,
    pub point: Seq<int>,
    pub tables: Seq<Seq<int>>,
    pub codewords: Seq<Seq<int>>,
}

/// The first `n` rounds: a round of the sum-check, then the folded codeword is committed to.
pub open spec fn fold_rounds<F: PrimeField, H: HashFunction>(
    p: int,
    ch: Oracle,
    xs: Seq<Seq<int>>,
    ws: Seq<Seq<int>>,
    tx: Tx,
    tables: Seq<Seq<int>>,
    cw: Seq<int>,
    n: nat,
) -> Folding
    decreases n,
{
    if n == 0 {
        Folding { tx, point: Seq::empty(), tables, codewords: seq![cw] }
    } else {
        let s = fold_rounds::<F, H>(p, ch, xs, ws, tx, tables, cw, (n - 1) as nat);
        let t = prove_round(
            fold_shape(p, ch),
            pair_comb(1),
            Proving { tx: s.tx, point: s.point, tables: s.tables },
        );
        let level = xs.len() - n;
        let next = fold_codeword(p, xs[level], ws[level], s.codewords.last(), t.point.last());
        Folding {
            tx: t.tx.commit(codeword_root::<F, H>(next)),
            point: t.point,
            tables: t.tables,
            codewords: s.codewords.push(next),
        }
    }
}

/// The entries at `2 * q` and `2 * q + 1` of several codewords.
pub open spec fn pairs_at(cs: Seq<Seq<int>>, q: int) -> Seq<int> {
    Seq::new(2 * cs.len(), |i: int| cs[i / 2][2 * q + i % 2])
}

/// Sends, for the first `n` folded codewords, the pair that a query leads to and its path.
pub open spec fn send_folds<F: PrimeField, H: HashFunction>(
    tx: Tx,
    codewords: Seq<Seq<int>>,
    q: int,
    n: nat,
) -> Tx
    decreases n,
{
    if n == 0 {
        tx
    } else {
        let cw = codewords[n as int];
        let a = ancestor(q, n);
        send_folds::<F, H>(tx, codewords, q, (n - 1) as nat).write_all(pairs_at(seq![cw], a)).commit_all(
            tree_path(element_tree::<F, H>(cw), a),
        )
    }
}

/// The commitments that are opened together: the codewords of each, and the tree over them.
pub struct Opened {
    pub first: Seq<int>,
    pub first_tree: Seq<Seq<Output>>,
    pub second: Seq<Seq<int>>,
    pub second_tree: Seq<Seq<Output>>,
    pub third: Seq<Seq<int>>,
    pub third_tree: Seq<Seq<Output>>,
}

/// Answers the query of the pair `q`.
pub open spec fn send_query<F: PrimeField, H: HashFunction>(
    tx: Tx,
    o: Opened,
    codewords: Seq<Seq<int>>,
    q: int,
    rounds: nat,
) -> Tx {
    let t1 = tx.write_all(pairs_at(seq![o.first], q)).commit_all(tree_path(o.first_tree, q));
    let t2 = t1.write_all(pairs_at(o.second, q)).commit_all(tree_path(o.second_tree, q));
    let t3 = t2.write_all(pairs_at(o.third, q)).commit_all(tree_path(o.third_tree, q));
    send_folds::<F, H>(t3, codewords, q, rounds)
}

/// Answers the first `n` queries.
pub open spec fn send_queries<F: PrimeField, H: HashFunction>(
    tx: Tx,
    o: Opened,
    codewords: Seq<Seq<int>>,
    qs: Seq<int>,
    rounds: nat,
    n: nat,
) -> Tx
    decreases n,
{
    if n == 0 {
        tx
    } else {
        send_query::<F, H>(
            send_queries::<F, H>(tx, o, codewords, qs, rounds, (n - 1) as nat),
            o,
            codewords,
            qs[n - 1],
            rounds,
        )
    }
}

/// The indices below `cap` that challenges stand for.
pub open spec fn query_indices(c: Seq<int>, cap: int) -> Seq<int> {
    Seq::new(c.len(), |i: int| index_of(c[i], cap))
}

/// All codewords that are opened, in the order of their weights.
pub open spec fn opened_codewords(o: Opened) -> Seq<Seq<int>> {
    seq![o.first] + o.second + o.third
}

/// The whole opening.
pub open spec fn open_batch<F: PrimeField, H: HashFunction>(
    p: int,
    ch: Oracle,
    xs: Seq<Seq<int>>,
    ws: Seq<Seq<int>>,
    tx: Tx,
    polys: Seq<Seq<int>>,
    rc: Seq<int>,
    point: Seq<int>,
    o: Opened,
    num_queries: nat,
) -> Tx {
    let n = point.len();
    let tables = seq![basis(p, point), combine(p, rc, polys, two_to(n))];
    let cw = combine(p, rc, opened_codewords(o), o.first.len());
    let f = fold_rounds::<F, H>(p, ch, xs, ws, tx, tables, cw, n);
    let qs = query_indices(
        challenges(ch, f.tx.hist, num_queries),
        (o.first.len() / 2) as int,
    );
    send_queries::<F, H>(
        f.tx.squeeze_many(num_queries),
        o,
        f.codewords,
        qs,
        n,
        num_queries,
    )
}

/// Commitments as integers.
pub open spec fn opened_view<F: PrimeField>(
    comm: BasefoldCommitment<F>,
    b1: BasefoldBatchCommitment<F>,
    b2: BasefoldBatchCommitment<F>,
) -> Opened {
    Opened {
        first: vals(comm.codeword.poly@),
        first_tree: tree_view(comm.codeword_tree@),
        second: poly_values(b1.codewords@),
        second_tree: tree_view(b1.codeword_tree@),
        third: poly_values(b2.codewords@),
        third_tree: tree_view(b2.codeword_tree@),
    }
}

/// The trees and the codewords have the sizes of a code with `levels` levels.
pub open spec fn opened_fits(o: Opened, levels: nat) -> bool {
    &&& levels >= 1
    &&& o.first.len() == two_to(levels)
    &&& o.first_tree.len() == levels
    &&& o.second_tree.len() == levels
    &&& o.third_tree.len() == levels
    &&& forall|i: int| 0 <= i < o.second.len() ==> (#[trigger] o.second[i]).len() == two_to(levels)
    &&& forall|i: int| 0 <= i < o.third.len() ==> (#[trigger] o.third[i]).len() == two_to(levels)
    &&& forall|k: int|
        0 <= k < levels ==> (#[trigger] o.first_tree[k]).len() == two_to((levels - 1 - k) as nat)
    &&& forall|k: int|
        0 <= k < levels ==> (#[trigger] o.second_tree[k]).len() == two_to((levels - 1 - k) as nat)
    &&& forall|k: int|
        0 <= k < levels ==> (#[trigger] o.third_tree[k]).len() == two_to((levels - 1 - k) as nat)
}

/// Sends the pairs of several codewords.
fn write_pairs<F: PrimeField, T: TranscriptWrite<F>>(
    codewords: &Vec<Type1Polynomial<F>>,
    q: usize,
    transcript: &mut T,
)
    requires
        codewords@.len() <= usize::MAX / 2,
        forall|i: int|
            0 <= i < codewords@.len() ==> 2 * q + 1 < (#[trigger] codewords@[i]).poly@.len(),
    ensures
        final(transcript).tx() == old(transcript).tx().write_all(
            pairs_at(poly_values(codewords@), q as int),
        ),
{
    let mut values: Vec<F> = Vec::new();
    let ghost cs = poly_values(codewords@);
    let n = codewords.len();
    let mut i: usize = 0;
    while i < n
        invariant
            i <= n,
            n == codewords@.len(),
            n <= usize::MAX / 2,
            cs == poly_values(codewords@),
            forall|i: int|
                0 <= i < codewords@.len() ==> 2 * q + 1 < (#[trigger] codewords@[i]).poly@.len(),
            values@.len() == 2 * i,
            forall|j: int|
                0 <= j < 2 * i ==> (#[trigger] values@[j]).value() == cs[j / 2][2 * q + j % 2],
        decreases n - i,
    {
        assert(2 * q + 1 < codewords@[i as int].poly@.len());
        let len = codewords[i].poly.len();
        values.push(codewords[i].poly[2 * q]);
        values.push(codewords[i].poly[2 * q + 1]);
        i += 1;
    }
    assert(vals(values@) =~= pairs_at(cs, q as int));
    write_field_elements(transcript, &values);
}

/// Sends the pair of one codeword.
fn write_pair<F: PrimeField, T: TranscriptWrite<F>>(codeword: &Vec<F>, q: usize, transcript: &mut T)
    requires
        2 * q + 1 < codeword@.len(),
    ensures
        final(transcript).tx() == old(transcript).tx().write_all(
            pairs_at(seq![vals(codeword@)], q as int),
        ),
{
    let mut values: Vec<F> = Vec::new();
    let len = codeword.len();
    values.push(codeword[2 * q]);
    values.push(codeword[2 * q + 1]);
    assert(vals(values@) =~= pairs_at(seq![vals(codeword@)], q as int));
    write_field_elements(transcript, &values);
}

pub proof fn lemma_element_tree_shape<F: PrimeField, H: HashFunction>(cw: Seq<int>, levels: nat)
    requires
        cw.len() == two_to(levels),
        levels >= 1,
    ensures
        ({
            let t = element_tree::<F, H>(cw);
            &&& t.len() == levels
            &&& forall|k: int| 0 <= k < levels ==> (#[trigger] t[k]).len() == two_to((levels - 1 - k) as nat)
        }),
{
    let t = element_tree::<F, H>(cw);
    lemma_log2_two_to(levels);
    let l = pair_digests::<F, H>(cw);
    assert(two_to(levels) == 2 * two_to((levels - 1) as nat));
    assert forall|k: int| 0 <= k < levels implies (#[trigger] t[k]).len() == two_to((levels - 1 - k) as nat) by {
        lemma_tree_level_len::<H>(l, (levels - 1) as nat, k as nat);
    }
}

pub proof fn lemma_column_tree_shape<F: PrimeField, H: HashFunction>(rows: Seq<Seq<int>>, levels: nat)
    requires
        rows.len() >= 1,
        rows[0].len() == two_to(levels),
        levels >= 1,
    ensures
        ({
            let t = column_tree::<F, H>(rows);
            &&& t.len() == levels
            &&& forall|k: int| 0 <= k < levels ==> (#[trigger] t[k]).len() == two_to((levels - 1 - k) as nat)
        }),
{
    let t = column_tree::<F, H>(rows);
    lemma_log2_two_to(levels);
    let l = level_above::<H>(column_digests::<F, H>(rows));
    assert(two_to(levels) == 2 * two_to((levels - 1) as nat));
    assert forall|k: int| 0 <= k < levels implies (#[trigger] t[k]).len() == two_to((levels - 1 - k) as nat) by {
        lemma_tree_level_len::<H>(l, (levels - 1) as nat, k as nat);
    }
}

/// The codewords of all rounds and their trees.
struct FoldedCodewords<F: PrimeField> {
    codewords: Vec<Vec<F>>,
    trees: Vec<Vec<Vec<Output>>>,
}

/// The rounds of folding. Returns the codewords, the unfolded one first, and the trees over the
/// folded ones.
fn fold_phase<F: PrimeField, H: HashFunction, T: TranscriptWrite<F>>(
    pp: &BasefoldProverParams<F>,
    eq_vec: Vec<F>,
    combined_poly: Vec<F>,
    combined_codeword: Vec<F>,
    transcript: &mut T,
) -> (r: FoldedCodewords<F>)
    requires
        pp.wf(),
        eq_vec@.len() == two_to(pp.num_vars as nat),
        combined_poly@.len() == two_to(pp.num_vars as nat),
        combined_codeword@.len() == two_to((pp.num_vars + pp.log_rate) as nat),
    ensures
        ({
            let f = fold_rounds::<F, H>(
                F::modulus(),
                T::oracle(),
                all_points(pp.table_w_weights@),
                all_weights(pp.table_w_weights@),
                old(transcript).tx(),
                seq![vals(eq_vec@), vals(combined_poly@)],
                vals(combined_codeword@),
                pp.num_vars as nat,
            );
            &&& final(transcript).tx() == f.tx
            &&& vals2(r.codewords@) == f.codewords
            &&& r.codewords@.len() == pp.num_vars + 1
            &&& r.trees@.len() == pp.num_vars
            &&& forall|k: int|
                0 <= k < r.codewords@.len() ==> (#[trigger] r.codewords@[k])@.len() == two_to(
                    (pp.num_vars + pp.log_rate - k) as nat,
                )
            &&& forall|k: int|
                0 <= k < r.trees@.len() ==> tree_view((#[trigger] r.trees@[k])@) == element_tree::<F, H>(
                    f.codewords[k + 1],
                )
        }),
{
    let ghost p = F::modulus();
    let ghost ch = T::oracle();
    let ghost xs = all_points(pp.table_w_weights@);
    let ghost ws = all_weights(pp.table_w_weights@);
    let ghost tx = transcript.tx();
    let ghost start = seq![vals(eq_vec@), vals(combined_poly@)];
    let ghost cw = vals(combined_codeword@);
    let num_rounds = pp.num_vars;
    let levels = pp.table_w_weights.len();
    let ghost nv = pp.num_vars as nat;
    let mut tables: Vec<Vec<F>> = Vec::new();
    tables.push(eq_vec);
    tables.push(combined_poly);
    let mut codewords: Vec<Vec<F>> = Vec::new();
    codewords.push(combined_codeword);
    let mut trees: Vec<Vec<Vec<Output>>> = Vec::new();
    let combiner = PairCombiner { pairs: 1 };
    let mut k: usize = 0;
    let ghost mut point: Seq<int> = Seq::empty();
    assert(vals2(tables@) =~= start);
    assert(vals2(codewords@) =~= seq![cw]);
    proof {
        assert(Combiner::<F>::arity(&combiner) == 2);
    }
    while k < num_rounds
        invariant
            k <= num_rounds,
            num_rounds == pp.num_vars,
            nv == pp.num_vars as nat,
            levels == pp.table_w_weights@.len(),
            levels == pp.num_vars + pp.log_rate,
            pp.wf(),
            p == F::modulus(),
            ch == T::oracle(),
            xs == all_points(pp.table_w_weights@),
            ws == all_weights(pp.table_w_weights@),
            combiner.pairs == 1,
            tables@.len() == 2,
            uniform(vals2(tables@), two_to((nv - k) as nat)),
            codewords@.len() == k + 1,
            trees@.len() == k,
            forall|j: int|
                0 <= j < codewords@.len() ==> (#[trigger] codewords@[j])@.len() == two_to(
                    (levels - j) as nat,
                ),
            fold_rounds::<F, H>(p, ch, xs, ws, tx, start, cw, k as nat) == (Folding {
                tx: transcript.tx(),
                point,
                tables: vals2(tables@),
                codewords: vals2(codewords@),
            }),
            forall|j: int|
                0 <= j < trees@.len() ==> tree_view((#[trigger] trees@[j])@) == element_tree::<F, H>(
                    vals(codewords@[j + 1]@),
                ),
        decreases num_rounds - k,
    {
        let ghost s = fold_rounds::<F, H>(p, ch, xs, ws, tx, start, cw, k as nat);
        proof {
            assert(vals2(tables@)[0].len() == two_to((nv - k) as nat));
            assert(tables@[0]@.len() == two_to((nv - k) as nat));
            assert(Combiner::<F>::arity(&combiner) == 2);
        }
        let r = sum_check_round(&mut tables, &combiner, true, transcript);
        let ghost mid = transcript.tx();
        proof {
            let sh = fold_shape(p, ch);
            assert(sh == (Shape {
                p: F::modulus(),
                ch: T::oracle(),
                degree: Combiner::<F>::degree(&combiner),
                descending: true,
            }));
            assert(Combiner::<F>::comb(&combiner) == pair_comb(1));
            let next_point = point.push(r.value());
            assert(prove_round(
                sh,
                pair_comb(1),
                Proving { tx: s.tx, point, tables: s.tables },
            ) == (Proving { tx: mid, point: next_point, tables: vals2(tables@) }));
            assert(two_to((nv - k) as nat) == 2 * two_to((nv - k - 1) as nat));
            // the level of the table
            let l = levels - 1 - k;
            assert(pp.table_w_weights@[l]@.len() == two_to(l as nat));
            assert(codewords@[k as int]@.len() == two_to((levels - k) as nat));
            assert(two_to((levels - k) as nat) == 2 * two_to((levels - k - 1) as nat));
        }
        let next = basefold_one_round_by_interpolation_weights(
            &pp.table_w_weights,
            k,
            &codewords[k],
            r,
        );
        proof {
            assert(vals(next@).len() == next@.len());
            lemma_log2_two_to((levels - k - 1) as nat);
            lemma_two_to_monotone(1, (levels - k - 1) as nat);
            assert(two_to(1) == 2 * two_to(0));
            lemma_element_tree_shape::<F, H>(vals(next@), (levels - k - 1) as nat);
        }
        let tree = merkelize::<F, H>(&next);
        let ghost tv = tree_view(tree@);
        assert(tv[tree@.len() - 1] == tree@[tree@.len() - 1]@);
        assert(tv[tree@.len() - 1].len() == two_to(0));
        let root = tree[tree.len() - 1][0];
        assert(root == codeword_root::<F, H>(vals(next@)));
        transcript.write_commitment(&root);
        let ghost before = codewords@;
        codewords.push(next);
        trees.push(tree);
        proof {
            point = point.push(r.value());
            assert(vals2(codewords@) =~= vals2(before).push(vals(next@)));
            assert(vals2(before).last() == vals(before[k as int]@));
            assert(xs[levels - 1 - k] == weight_points(pp.table_w_weights@[levels - 1 - k]@));
            assert(ws[levels - 1 - k] == weight_values(pp.table_w_weights@[levels - 1 - k]@));
            assert(xs.len() - (k + 1) == levels - 1 - k);
            assert forall|j: int| 0 <= j < trees@.len() implies tree_view((#[trigger] trees@[j])@)
                == element_tree::<F, H>(vals(codewords@[j + 1]@)) by {
                if j < k {
                    assert(codewords@[j + 1] == before[j + 1]);
                }
            }
        }
        k += 1;
    }
    proof {
        let f = fold_rounds::<F, H>(p, ch, xs, ws, tx, start, cw, nv);
        assert forall|j: int| 0 <= j < trees@.len() implies tree_view((#[trigger] trees@[j])@)
            == element_tree::<F, H>(f.codewords[j + 1]) by {
            assert(f.codewords[j + 1] == vals(codewords@[j + 1]@));
        }
    }
    FoldedCodewords { codewords, trees }
}

/// Answers one query.
fn answer_query<F: PrimeField, H: HashFunction, T: TranscriptWrite<F>>(
    comm: &BasefoldCommitment<F>,
    batch_comm_1: &BasefoldBatchCommitment<F>,
    batch_comm_2: &BasefoldBatchCommitment<F>,
    folded: &FoldedCodewords<F>,
    q: usize,
    levels: usize,
    transcript: &mut T,
)
    requires
        opened_fits(opened_view(*comm, *batch_comm_1, *batch_comm_2), levels as nat),
        batch_comm_1.codewords@.len() <= usize::MAX / 2,
        batch_comm_2.codewords@.len() <= usize::MAX / 2,
        two_to(levels as nat) <= usize::MAX,
        q < two_to((levels - 1) as nat),
        folded.codewords@.len() >= 1,
        folded.trees@.len() == folded.codewords@.len() - 1,
        folded.codewords@.len() <= levels,
        forall|k: int|
            0 <= k < folded.codewords@.len() ==> (#[trigger] folded.codewords@[k])@.len() == two_to(
                (levels - k) as nat,
            ),
        forall|k: int|
            0 <= k < folded.trees@.len() ==> tree_view((#[trigger] folded.trees@[k])@)
                == element_tree::<F, H>(vals(folded.codewords@[k + 1]@)),
    ensures
        final(transcript).tx() == send_query::<F, H>(
            old(transcript).tx(),
            opened_view(*comm, *batch_comm_1, *batch_comm_2),
            vals2(folded.codewords@),
            q as int,
            folded.trees@.len(),
        ),
{
    let ghost o = opened_view(*comm, *batch_comm_1, *batch_comm_2);
    let ghost cws = vals2(folded.codewords@);
    proof {
        assert(two_to(levels as nat) == 2 * two_to((levels - 1) as nat));
        assert(o.first.len() == comm.codeword.poly@.len());
        assert forall|i: int| 0 <= i < batch_comm_1.codewords@.len() implies 2 * q + 1
            < (#[trigger] batch_comm_1.codewords@[i]).poly@.len() by {
            assert(o.second[i].len() == two_to(levels as nat));
        }
        assert forall|i: int| 0 <= i < batch_comm_2.codewords@.len() implies 2 * q + 1
            < (#[trigger] batch_comm_2.codewords@[i]).poly@.len() by {
            assert(o.third[i].len() == two_to(levels as nat));
        }
    }
    write_pair(&comm.codeword.poly, q, transcript);
    write_merkle_path::<F, T>(2 * q, &comm.codeword_tree, transcript);
    write_pairs(&batch_comm_1.codewords, q, transcript);
    write_merkle_path::<F, T>(2 * q, &batch_comm_1.codeword_tree, transcript);
    write_pairs(&batch_comm_2.codewords, q, transcript);
    write_merkle_path::<F, T>(2 * q, &batch_comm_2.codeword_tree, transcript);
    let ghost t3 = transcript.tx();
    let rounds = folded.trees.len();
    let mut k: usize = 0;
    let mut a: usize = q;
    while k < rounds
        invariant
            k <= rounds,
            rounds == folded.trees@.len(),
            rounds == folded.codewords@.len() - 1,
            folded.codewords@.len() <= levels,
            two_to(levels as nat) <= usize::MAX,
            q < two_to((levels - 1) as nat),
            a == ancestor(q as int, k as nat),
            cws == vals2(folded.codewords@),
            forall|k: int|
                0 <= k < folded.codewords@.len() ==> (#[trigger] folded.codewords@[k])@.len()
                    == two_to((levels - k) as nat),
            forall|k: int|
                0 <= k < folded.trees@.len() ==> tree_view((#[trigger] folded.trees@[k])@)
                    == element_tree::<F, H>(vals(folded.codewords@[k + 1]@)),
            transcript.tx() == send_folds::<F, H>(t3, cws, q as int, k as nat),
        decreases rounds - k,
    {
        a = a / 2;
        proof {
            let m = (levels - 1 - k) as nat;
            lemma_ancestor_bound(q as int, (levels - 1) as nat, (k + 1) as nat);
            assert(folded.codewords@[k + 1]@.len() == two_to(m));
            assert(two_to(m) == 2 * two_to((m - 1) as nat));
            lemma_two_to_monotone(m, levels as nat);
            lemma_element_tree_shape::<F, H>(vals(folded.codewords@[k + 1]@), m);
            assert(tree_view(folded.trees@[k as int]@) == element_tree::<F, H>(
                vals(folded.codewords@[k + 1]@),
            ));
        }
        write_pair(&folded.codewords[k + 1], a, transcript);
        write_merkle_path::<F, T>(2 * a, &folded.trees[k], transcript);
        k += 1;
    }
}

/// Opens polynomials, given in bit-reversed order, at `point`: sends the rounds of a sum-check
/// and the folded codewords, and answers the queries. The commitments hold the codewords of the
/// polynomials, in the order of these.
#[verifier::rlimit(60)]
pub fn basefold_batch_open<F: PrimeField, H: HashFunction, T: TranscriptWrite<F>>(
    pp: &BasefoldProverParams<F>,
    polys: &Vec<Vec<F>>,
    random_combiners: &Vec<F>,
    point: &Vec<F>,
    comm: &BasefoldCommitment<F>,
    batch_comm_1: &BasefoldBatchCommitment<F>,
    batch_comm_2: &BasefoldBatchCommitment<F>,
    transcript: &mut T,
)
    requires
        pp.wf(),
        polys@.len() == random_combiners@.len(),
        forall|i: int|
            0 <= i < polys@.len() ==> (#[trigger] polys@[i])@.len() == two_to(pp.num_vars as nat),
        point@.len() == pp.num_vars,
        opened_fits(
            opened_view(*comm, *batch_comm_1, *batch_comm_2),
            (pp.num_vars + pp.log_rate) as nat,
        ),
        1 + batch_comm_1.codewords@.len() + batch_comm_2.codewords@.len() <= random_combiners@.len(),
        batch_comm_1.codewords@.len() <= usize::MAX / 2,
        batch_comm_2.codewords@.len() <= usize::MAX / 2,
    ensures
        final(transcript).tx() == open_batch::<F, H>(
            F::modulus(),
            T::oracle(),
            all_points(pp.table_w_weights@),
            all_weights(pp.table_w_weights@),
            old(transcript).tx(),
            vals2(polys@),
            vals(random_combiners@),
            vals(point@),
            opened_view(*comm, *batch_comm_1, *batch_comm_2),
            pp.num_verifier_queries as nat,
        ),
{
    let ghost p = F::modulus();
    let ghost nv = pp.num_vars as nat;
    let ghost o = opened_view(*comm, *batch_comm_1, *batch_comm_2);
    let ghost tx = transcript.tx();
    let levels = pp.table_w_weights.len();
    proof {
        lemma_two_to_monotone(nv, levels as nat);
        assert(o.first.len() == comm.codeword.poly@.len());
        lemma_two_to_positive(levels as nat);
    }
    let size = pow_two(pp.num_vars);
    let combined_poly = combine_vectors(random_combiners, polys, size);
    // the codewords in the order of the polynomials
    let mut words: Vec<Vec<F>> = Vec::new();
    words.push(copy_elements(&comm.codeword.poly));
    let mut i: usize = 0;
    while i < batch_comm_1.codewords.len()
        invariant
            i <= batch_comm_1.codewords@.len(),
            o == opened_view(*comm, *batch_comm_1, *batch_comm_2),
            words@.len() == 1 + i,
            vals2(words@) == seq![o.first] + o.second.take(i as int),
        decreases batch_comm_1.codewords@.len() - i,
    {
        let ghost before = words@;
        words.push(copy_elements(&batch_comm_1.codewords[i].poly));
        proof {
            assert(vals2(words@) =~= vals2(before).push(o.second[i as int]));
            assert(seq![o.first] + o.second.take(i as int + 1) =~= (seq![o.first] + o.second.take(
                i as int,
            )).push(o.second[i as int]));
        }
        i += 1;
    }
    assert(o.second.take(o.second.len() as int) =~= o.second);
    i = 0;
    assert(seq![o.first] + o.second =~= seq![o.first] + o.second + o.third.take(0));
    while i < batch_comm_2.codewords.len()
        invariant
            i <= batch_comm_2.codewords@.len(),
            o == opened_view(*comm, *batch_comm_1, *batch_comm_2),
            words@.len() == 1 + o.second.len() + i,
            vals2(words@) == seq![o.first] + o.second + o.third.take(i as int),
        decreases batch_comm_2.codewords@.len() - i,
    {
        let ghost before = words@;
        words.push(copy_elements(&batch_comm_2.codewords[i].poly));
        proof {
            assert(vals2(words@) =~= vals2(before).push(o.third[i as int]));
            assert(seq![o.first] + o.second + o.third.take(i as int + 1) =~= (seq![o.first] + o.second
                + o.third.take(i as int)).push(o.third[i as int]));
        }
        i += 1;
    }
    assert(o.third.take(o.third.len() as int) =~= o.third);
    let word_len = comm.codeword.poly.len();
    proof {
        assert(vals2(words@) == opened_codewords(o));
        assert forall|i: int| 0 <= i < words@.len() implies (#[trigger] words@[i])@.len() >= word_len by {
            assert(vals2(words@)[i].len() == words@[i]@.len());
            if i == 0 {
            } else if i <= o.second.len() {
                assert(vals2(words@)[i] == o.second[i - 1]);
            } else {
                assert(vals2(words@)[i] == o.third[i - 1 - o.second.len()]);
            }
        }
    }
    let combined_codeword = combine_vectors(random_combiners, &words, word_len);
    let mut eq_vec: Vec<F> = Vec::new();
    i = 0;
    while i < size
        invariant
            i <= size,
            size == two_to(point@.len()),
            p == F::modulus(),
            eq_vec@.len() == i,
            forall|j: int|
                0 <= j < i ==> (#[trigger] eq_vec@[j]).value() == eq_prod(j, vals(point@)) % p,
        decreases size - i,
    {
        eq_vec.push(eq(i, point));
        i += 1;
    }
    assert(vals(eq_vec@) =~= basis(p, vals(point@)));
    proof {
        assert(vals(combined_poly@).len() == combined_poly@.len());
        assert(vals(combined_codeword@).len() == combined_codeword@.len());
    }
    let folded = fold_phase::<F, H, T>(
        pp,
        eq_vec,
        combined_poly,
        combined_codeword,
        transcript,
    );
    let ghost f_tx = transcript.tx();
    let num_queries = pp.num_verifier_queries;
    let drawn = squeeze_challenges::<F, T>(transcript, num_queries);
    let cap: usize = word_len / 2;
    proof {
        assert(two_to(levels as nat) == 2 * two_to((levels - 1) as nat));
        lemma_two_to_positive((levels - 1) as nat);
        crate::transcript::lemma_challenges_len(T::oracle(), f_tx.hist, num_queries as nat);
        assert(vals(drawn@).len() == drawn@.len());
    }
    let ghost qs = query_indices(vals(drawn@), cap as int);
    let ghost start = transcript.tx();
    i = 0;
    while i < num_queries
        invariant
            i <= num_queries,
            num_queries == drawn@.len(),
            qs == query_indices(vals(drawn@), cap as int),
            o == opened_view(*comm, *batch_comm_1, *batch_comm_2),
            opened_fits(o, levels as nat),
            batch_comm_1.codewords@.len() <= usize::MAX / 2,
            batch_comm_2.codewords@.len() <= usize::MAX / 2,
            cap == two_to((levels - 1) as nat),
            cap >= 1,
            two_to(levels as nat) <= usize::MAX,
            folded.codewords@.len() == pp.num_vars + 1,
            folded.trees@.len() == pp.num_vars,
            pp.wf(),
            levels == pp.num_vars + pp.log_rate,
            forall|k: int|
                0 <= k < folded.codewords@.len() ==> (#[trigger] folded.codewords@[k])@.len()
                    == two_to((levels - k) as nat),
            forall|k: int|
                0 <= k < folded.trees@.len() ==> tree_view((#[trigger] folded.trees@[k])@)
                    == element_tree::<F, H>(vals(folded.codewords@[k + 1]@)),
            transcript.tx() == send_queries::<F, H>(
                start,
                o,
                vals2(folded.codewords@),
                qs,
                pp.num_vars as nat,
                i as nat,
            ),
        decreases num_queries - i,
    {
        let q = element_index(drawn[i], cap);
        assert(qs[i as int] == q);
        answer_query::<F, H, T>(
            comm,
            batch_comm_1,
            batch_comm_2,
            &folded,
            q,
            levels,
            transcript,
        );
        i += 1;
    }
}

/// Where the verifier stands in the folding.
pub struct FoldChecking {
    pub check: Check,
    pub claim: int,
    pub point: Seq<int>,
    pub oracles: Seq<Output>,
}

/// The first `n` rounds of the verifier: a round of the sum-check, then a root is read.
pub open spec fn check_folds(p: int, ch: Oracle, check: Check, claim: int, n: nat) -> FoldChecking
    decreases n,
{
    if n == 0 {
        FoldChecking { check, claim, point: Seq::empty(), oracles: Seq::empty() }
    } else {
        let s = check_folds(p, ch, check, claim, (n - 1) as nat);
        let t = check_round(
            fold_shape(p, ch),
            Claiming { check: s.check, claim: s.claim, point: s.point },
        );
        let (c, root) = t.check.read_commitment();
        FoldChecking { check: c, claim: t.claim, point: t.point, oracles: s.oracles.push(root) }
    }
}

/// The answer to a query: the pairs of all opened codewords and their paths, and those of the
/// folded codewords.
pub struct Answer {
    pub opened: Seq<int>,
    pub path1: Seq<Output>,
    pub path2: Seq<Output>,
    pub path3: Seq<Output>,
    pub pairs: Seq<Seq<int>>,
    pub paths: Seq<Seq<Output>>,
}

/// Reads the pairs and paths of the first `n` folded codewords.
pub open spec fn read_folds(check: Check, levels: nat, n: nat) -> (Check, Seq<Seq<int>>, Seq<Seq<Output>>)
    decreases n,
{
    if n == 0 {
        (check, Seq::empty(), Seq::empty())
    } else {
        let (c0, pairs, paths) = read_folds(check, levels, (n - 1) as nat);
        let (c1, pair) = c0.read_many(2);
        let (c2, path) = c1.read_commitments((levels - n) as nat);
        (c2, pairs.push(pair), paths.push(path))
    }
}

/// Reads one answer.
pub open spec fn read_answer(check: Check, levels: nat, rounds: nat) -> (Check, Answer) {
    let (c1, e1) = check.read_many(2);
    let (c2, path1) = c1.read_commitments(levels);
    let (c3, e2) = c2.read_many(4);
    let (c4, path2) = c3.read_commitments(levels);
    let (c5, e3) = c4.read_many(12);
    let (c6, path3) = c5.read_commitments(levels);
    let (c7, pairs, paths) = read_folds(c6, levels, rounds);
    (c7, Answer { opened: e1 + e2 + e3, path1, path2, path3, pairs, paths })
}

/// Reads the first `n` answers.
pub open spec fn read_answers(check: Check, levels: nat, rounds: nat, n: nat) -> (Check, Seq<Answer>)
    decreases n,
{
    if n == 0 {
        (check, Seq::empty())
    } else {
        let (c, a) = read_answers(check, levels, rounds, (n - 1) as nat);
        let (d, x) = read_answer(c, levels, rounds);
        (d, a.push(x))
    }
}

/// Every second of `n` entries of `s`, from `from` on.
pub open spec fn strided(s: Seq<int>, from: int, n: nat) -> Seq<int> {
    Seq::new(n, |i: int| s[from + 2 * i])
}

/// The digest of the pair of columns that an answer opens.
pub open spec fn column_pair_digest<F: PrimeField, H: HashFunction>(opened: Seq<int>, from: int, n: nat) -> Output {
    digest_pair::<H>(
        digest_elements::<F, H>(strided(opened, from, n)),
        digest_elements::<F, H>(strided(opened, from + 1, n)),
    )
}

/// All paths of an answer lead to their roots.
pub open spec fn paths_hold<F: PrimeField, H: HashFunction>(
    a: Answer,
    q: int,
    rounds: nat,
    comm: Output,
    batch_comm_1: Output,
    batch_comm_2: Output,
    oracles: Seq<Output>,
) -> bool {
    &&& path_holds::<H>(digest_elements::<F, H>(seq![a.opened[0], a.opened[1]]), q, a.path1, comm)
    &&& path_holds::<H>(column_pair_digest::<F, H>(a.opened, 2, 2), q, a.path2, batch_comm_1)
    &&& path_holds::<H>(column_pair_digest::<F, H>(a.opened, 6, 6), q, a.path3, batch_comm_2)
    &&& forall|k: int|
        0 <= k < rounds ==> path_holds::<H>(
            digest_elements::<F, H>(seq![a.pairs[k][0], a.pairs[k][1]]),
            ancestor(q, (k + 1) as nat),
            #[trigger] a.paths[k],
            oracles[k],
        )
}

/// The pair that a round starts from: the weighted sum of the opened pairs in the first, and
/// what was opened of the folded codeword in the others.
pub open spec fn round_pair(p: int, a: Answer, rc: Seq<int>, k: int) -> (int, int) {
    if k == 0 {
        (
            sum_of(9, |i: int| rc[i] * a.opened[2 * i]) % p,
            sum_of(9, |i: int| rc[i] * a.opened[2 * i + 1]) % p,
        )
    } else {
        (a.pairs[k - 1][0], a.pairs[k - 1][1])
    }
}

/// `c` is the value at `r` of the line with the value `e0` at `x` and `e1` at `-x`.
pub open spec fn folds_to(p: int, x: int, e0: int, e1: int, r: int, c: int) -> bool {
    &&& x != 0
    &&& cong(p, (2 * x) * c, x * (e0 + e1) + r * (e0 - e1))
}

/// The point of the table that a query leads to in a round.
pub open spec fn fold_point(p: int, seed: Seq<u8>, levels: nat, q: int, k: int) -> int {
    let level = (levels - 1 - k) as nat;
    table_entry(p, seed, level, reversed(ancestor(q, k as nat) as nat, level) as int)
}

/// The pair that was opened in round `k` folds to what was opened in the next.
pub open spec fn fold_holds(
    p: int,
    seed: Seq<u8>,
    levels: nat,
    a: Answer,
    q: int,
    rc: Seq<int>,
    rs: Seq<int>,
    k: int,
) -> bool {
    let (e0, e1) = round_pair(p, a, rc, k);
    folds_to(
        p,
        fold_point(p, seed, levels, q, k),
        e0,
        e1,
        rs[k],
        a.pairs[k][ancestor(q, k as nat) % 2],
    )
}

/// All pairs of an answer fold to the next ones.
pub open spec fn folds_hold(
    p: int,
    seed: Seq<u8>,
    levels: nat,
    a: Answer,
    q: int,
    rc: Seq<int>,
    rs: Seq<int>,
) -> bool {
    forall|k: int|
        0 <= k < rs.len() ==> #[trigger] fold_holds(p, seed, levels, a, q, rc, rs, k)
}

/// `f` is the reduced quotient of `claim` and `eq`.
pub open spec fn is_quotient(p: int, claim: int, eq: int, f: int) -> bool {
    &&& 0 <= f < p
    &&& cong(p, f * eq, claim)
}

/// The quotient of `claim` and `eq`.
pub open spec fn quotient(p: int, claim: int, eq: int) -> int {
    choose|f: int| is_quotient(p, claim, eq, f)
}

/// The whole check of an opening.
pub open spec fn check_batch<F: PrimeField, H: HashFunction>(
    p: int,
    ch: Oracle,
    check: Check,
    seed: Seq<u8>,
    num_vars: nat,
    log_rate: nat,
    num_queries: nat,
    rc: Seq<int>,
    point: Seq<int>,
    comm: Output,
    batch_comm_1: Output,
    batch_comm_2: Output,
    evals: Seq<int>,
) -> Check {
    let levels = num_vars + log_rate;
    let s = check_folds(p, ch, check, dot(rc, evals) % p, num_vars);
    let eq = eq_points(point, s.point) % p;
    let c1 = s.check.require(eq != 0, Error::Folding);
    let last = Seq::new(two_to(log_rate), |i: int| quotient(p, s.claim, eq));
    let c2 = c1.require(codeword_root::<F, H>(last) == s.oracles.last(), Error::FinalOracle);
    let (c3, drawn) = c2.squeeze_many(ch, num_queries);
    let qs = query_indices(drawn, two_to((levels - 1) as nat) as int);
    check_answers::<F, H>(
        p,
        c3,
        seed,
        num_vars,
        levels,
        num_queries,
        rc,
        s.point,
        qs,
        comm,
        batch_comm_1,
        batch_comm_2,
        s.oracles,
    )
}

pub proof fn lemma_check_folds_failed(p: int, ch: Oracle, check: Check, claim: int, n: nat, m: nat)
    requires
        check_folds(p, ch, check, claim, n).check.err is Some,
        n <= m,
    ensures
        check_folds(p, ch, check, claim, m).check == check_folds(p, ch, check, claim, n).check,
    decreases m,
{
    if n < m {
        lemma_check_folds_failed(p, ch, check, claim, n, (m - 1) as nat);
        let s = check_folds(p, ch, check, claim, (m - 1) as nat);
        crate::transcript::lemma_read_many_failed(s.check, 0, 3);
    }
}

pub proof fn lemma_read_folds_failed(check: Check, levels: nat, n: nat, m: nat)
    requires
        read_folds(check, levels, n).0.err is Some,
        n <= m,
    ensures
        read_folds(check, levels, m).0 == read_folds(check, levels, n).0,
    decreases m,
{
    if n < m {
        lemma_read_folds_failed(check, levels, n, (m - 1) as nat);
        let c0 = read_folds(check, levels, (m - 1) as nat).0;
        crate::transcript::lemma_read_many_failed(c0, 0, 2);
        let c1 = c0.read_many(2).0;
        crate::transcript::lemma_read_commitments_failed(c1, 0, (levels - m) as nat);
    }
}

proof fn lemma_read_answer_failed(check: Check, levels: nat, rounds: nat)
    requires
        check.err is Some,
    ensures
        read_answer(check, levels, rounds).0 == check,
{
    crate::transcript::lemma_read_many_failed(check, 0, 2);
    crate::transcript::lemma_read_many_failed(check, 0, 4);
    crate::transcript::lemma_read_many_failed(check, 0, 12);
    crate::transcript::lemma_read_commitments_failed(check, 0, levels);
    lemma_read_folds_failed(check, levels, 0, rounds);
}

pub proof fn lemma_read_answers_failed(check: Check, levels: nat, rounds: nat, n: nat, m: nat)
    requires
        read_answers(check, levels, rounds, n).0.err is Some,
        n <= m,
    ensures
        read_answers(check, levels, rounds, m).0 == read_answers(check, levels, rounds, n).0,
    decreases m,
{
    if n < m {
        lemma_read_answers_failed(check, levels, rounds, n, (m - 1) as nat);
        lemma_read_answer_failed(
            read_answers(check, levels, rounds, (m - 1) as nat).0,
            levels,
            rounds,
        );
    }
}

/// A check that has failed before stays as it is.
pub proof fn lemma_check_batch_failed<F: PrimeField, H: HashFunction>(
    p: int,
    ch: Oracle,
    check: Check,
    seed: Seq<u8>,
    num_vars: nat,
    log_rate: nat,
    num_queries: nat,
    rc: Seq<int>,
    point: Seq<int>,
    comm: Output,
    batch_comm_1: Output,
    batch_comm_2: Output,
    evals: Seq<int>,
)
    requires
        check_folds(p, ch, check, dot(rc, evals) % p, num_vars).check.err is Some || check.err is Some,
    ensures
        check_batch::<F, H>(
            p,
            ch,
            check,
            seed,
            num_vars,
            log_rate,
            num_queries,
            rc,
            point,
            comm,
            batch_comm_1,
            batch_comm_2,
            evals,
        ) == check_folds(p, ch, check, dot(rc, evals) % p, num_vars).check,
        check.err is Some ==> check_folds(p, ch, check, dot(rc, evals) % p, num_vars).check == check,
{
    let claim = dot(rc, evals) % p;
    if check.err is Some {
        lemma_check_folds_failed(p, ch, check, claim, 0, num_vars);
    }
    let s = check_folds(p, ch, check, claim, num_vars);
    lemma_failed_tail(s.check, ch, num_vars + log_rate, num_vars, num_queries);
}

proof fn lemma_failed_tail(c: Check, ch: Oracle, levels: nat, rounds: nat, n: nat)
    requires
        c.err is Some,
    ensures
        c.squeeze_many(ch, n).0 == c,
        read_answers(c, levels, rounds, n).0 == c,
{
    crate::transcript::lemma_squeeze_many_failed(c, ch, n);
    lemma_read_answers_failed(c, levels, rounds, 0, n);
}

/// An answer, read.
struct AnswerData<F: PrimeField> {
    opened: Vec<F>,
    path1: Vec<Output>,
    path2: Vec<Output>,
    path3: Vec<Output>,
    pairs: Vec<Vec<F>>,
    paths: Vec<Vec<Output>>,
}

impl<F: PrimeField> AnswerData<F> {
    spec fn model(&self) -> Answer {
        Answer {
            opened: vals(self.opened@),
            path1: self.path1@,
            path2: self.path2@,
            path3: self.path3@,
            pairs: vals2(self.pairs@),
            paths: tree_view(self.paths@),
        }
    }

    spec fn fits(&self, levels: nat, rounds: nat) -> bool {
        &&& self.opened@.len() == 18
        &&& self.path1@.len() == levels
        &&& self.path2@.len() == levels
        &&& self.path3@.len() == levels
        &&& self.pairs@.len() == rounds
        &&& self.paths@.len() == rounds
        &&& forall|k: int| 0 <= k < rounds ==> (#[trigger] self.pairs@[k])@.len() == 2
        &&& forall|k: int| 0 <= k < rounds ==> (#[trigger] self.paths@[k])@.len() == levels - 1 - k
    }
}

/// Reads a few elements and a path.
fn read_part<F: PrimeField, T: TranscriptRead<F>>(transcript: &mut T, n: usize, levels: usize) -> (res:
    Result<(Vec<F>, Vec<Output>), Error>)
    ensures
        ({
            let (c1, e) = checking(old(transcript).rx()).read_many(n as nat);
            let (c2, path) = c1.read_commitments(levels as nat);
            &&& final(transcript).rx() == c2.rx
            &&& outcome(res, c2.err)
            &&& res matches Ok(x) ==> vals(x.0@) == e && x.1@ == path && x.0@.len() == n && x.1@.len()
                == levels
        }),
{
    let ghost check = checking(transcript.rx());
    let elements = match read_field_elements::<F, T>(transcript, n) {
        Ok(x) => x,
        Err(e) => {
            proof {
                crate::transcript::lemma_read_commitments_failed(
                    check.read_many(n as nat).0,
                    0,
                    levels as nat,
                );
            }
            return Err(e);
        },
    };
    let ghost c1 = check.read_many(n as nat).0;
    let path = match read_commitments::<F, T>(transcript, levels) {
        Ok(x) => x,
        Err(e) => {
            return Err(e);
        },
    };
    proof {
        crate::transcript::lemma_read_many_len(check, n as nat);
        assert(vals(elements@).len() == elements@.len());
        crate::transcript::lemma_read_commitments_len(c1, levels as nat);
    }
    Ok((elements, path))
}

/// Reads one answer.
fn read_one<F: PrimeField, T: TranscriptRead<F>>(
    transcript: &mut T,
    levels: usize,
    rounds: usize,
) -> (res: Result<AnswerData<F>, Error>)
    requires
        rounds < levels,
    ensures
        ({
            let (c, a) = read_answer(
                checking(old(transcript).rx()),
                levels as nat,
                rounds as nat,
            );
            &&& final(transcript).rx() == c.rx
            &&& outcome(res, c.err)
            &&& res matches Ok(x) ==> x.model() == a && x.fits(levels as nat, rounds as nat)
        }),
{
    let ghost check = checking(transcript.rx());
    let ghost l = levels as nat;
    let (e1, path1) = match read_part::<F, T>(transcript, 2, levels) {
        Ok(x) => x,
        Err(e) => {
            proof {
                let c2 = check.read_many(2).0.read_commitments(l).0;
                lemma_read_rest_failed(c2, l, rounds as nat);
            }
            return Err(e);
        },
    };
    let (e2, path2) = match read_part::<F, T>(transcript, 4, levels) {
        Ok(x) => x,
        Err(e) => {
            proof {
                let c2 = check.read_many(2).0.read_commitments(l).0;
                let c4 = c2.read_many(4).0.read_commitments(l).0;
                lemma_read_rest_failed(c4, l, rounds as nat);
            }
            return Err(e);
        },
    };
    let (e3, path3) = match read_part::<F, T>(transcript, 12, levels) {
        Ok(x) => x,
        Err(e) => {
            proof {
                let c2 = check.read_many(2).0.read_commitments(l).0;
                let c4 = c2.read_many(4).0.read_commitments(l).0;
                let c6 = c4.read_many(12).0.read_commitments(l).0;
                lemma_read_rest_failed(c6, l, rounds as nat);
            }
            return Err(e);
        },
    };
    let ghost c6 = checking(transcript.rx());
    let mut pairs: Vec<Vec<F>> = Vec::new();
    let mut paths: Vec<Vec<Output>> = Vec::new();
    let mut k: usize = 0;
    assert(vals2(pairs@) =~= Seq::empty());
    assert(tree_view(paths@) =~= Seq::empty());
    while k < rounds
        invariant
            k <= rounds,
            rounds < levels,
            l == levels as nat,
            check == checking(old(transcript).rx()),
            read_folds(c6, l, k as nat) == (checking(transcript.rx()), vals2(pairs@), tree_view(paths@)),
            pairs@.len() == k,
            paths@.len() == k,
            forall|j: int| 0 <= j < k ==> (#[trigger] pairs@[j])@.len() == 2,
            forall|j: int| 0 <= j < k ==> (#[trigger] paths@[j])@.len() == levels - 1 - j,
            read_answer(check, l, rounds as nat).0 == read_folds(c6, l, rounds as nat).0,
        decreases rounds - k,
    {
        let ghost (b1, b2) = (pairs@, paths@);
        match read_part::<F, T>(transcript, 2, levels - 1 - k) {
            Ok(x) => {
                let (pair, path) = x;
                pairs.push(pair);
                paths.push(path);
                assert(vals2(pairs@) =~= vals2(b1).push(vals(pair@)));
                assert(tree_view(paths@) =~= tree_view(b2).push(path@));
            },
            Err(e) => {
                proof {
                    lemma_read_folds_failed(c6, l, (k + 1) as nat, rounds as nat);
                }
                return Err(e);
            },
        }
        k += 1;
    }
    let mut opened = e1;
    let ghost o1 = opened@;
    let mut i: usize = 0;
    while i < 4
        invariant
            i <= 4,
            e2@.len() == 4,
            opened@ == o1 + e2@.take(i as int),
        decreases 4 - i,
    {
        opened.push(e2[i]);
        assert(e2@.take(i as int + 1) =~= e2@.take(i as int).push(e2@[i as int]));
        i += 1;
    }
    assert(e2@.take(4) =~= e2@);
    let ghost o2 = opened@;
    i = 0;
    while i < 12
        invariant
            i <= 12,
            e3@.len() == 12,
            opened@ == o2 + e3@.take(i as int),
        decreases 12 - i,
    {
        opened.push(e3[i]);
        assert(e3@.take(i as int + 1) =~= e3@.take(i as int).push(e3@[i as int]));
        i += 1;
    }
    assert(e3@.take(12) =~= e3@);
    assert(vals(opened@) =~= vals(o1) + vals(e2@) + vals(e3@));
    Ok(AnswerData { opened, path1, path2, path3, pairs, paths })
}

proof fn lemma_read_rest_failed(c: Check, levels: nat, rounds: nat)
    requires
        c.err is Some,
    ensures
        c.read_many(4).0 == c,
        c.read_many(12).0 == c,
        c.read_commitments(levels).0 == c,
        read_folds(c, levels, rounds).0 == c,
{
    crate::transcript::lemma_read_many_failed(c, 0, 4);
    crate::transcript::lemma_read_many_failed(c, 0, 12);
    crate::transcript::lemma_read_commitments_failed(c, 0, levels);
    lemma_read_folds_failed(c, levels, 0, rounds);
}

/// Every second of `n` entries, from `from` on.
fn take_strided<F: PrimeField>(s: &Vec<F>, from: usize, n: usize) -> (r: Vec<F>)
    requires
        from + 2 * n <= s@.len() + 1,
    ensures
        vals(r@) == strided(vals(s@), from as int, n as nat),
{
    let mut r: Vec<F> = Vec::new();
    let len = s.len();
    let mut i: usize = 0;
    while i < n
        invariant
            i <= n,
            len == s@.len(),
            from + 2 * n <= len + 1,
            r@.len() == i,
            forall|j: int| 0 <= j < i ==> (#[trigger] r@[j]) == s@[from + 2 * j],
        decreases n - i,
    {
        r.push(s[from + 2 * i]);
        i += 1;
    }
    assert(vals(r@) =~= strided(vals(s@), from as int, n as nat));
    r
}

/// Whether all paths of an answer lead to their roots.
fn check_paths<F: PrimeField, H: HashFunction>(
    a: &AnswerData<F>,
    q: usize,
    levels: usize,
    rounds: usize,
    comm: &Output,
    batch_comm_1: &Output,
    batch_comm_2: &Output,
    oracles: &Vec<Output>,
) -> (r: bool)
    requires
        rounds < levels,
        a.fits(levels as nat, rounds as nat),
        oracles@.len() == rounds,
        q < two_to((levels - 1) as nat),
        two_to(levels as nat) <= usize::MAX,
    ensures
        r == paths_hold::<F, H>(
            a.model(),
            q as int,
            rounds as nat,
            *comm,
            *batch_comm_1,
            *batch_comm_2,
            oracles@,
        ),
{
    let ghost m = a.model();
    proof {
        assert(two_to(levels as nat) == 2 * two_to((levels - 1) as nat));
        assert((2 * q as int) / 2 == q);
    }
    let first = (a.opened[0], a.opened[1]);
    if authenticate_merkle_path::<F, H>(2 * q, &first, &a.path1, comm).is_err() {
        return false;
    }
    let x2 = take_strided(&a.opened, 2, 2);
    let y2 = take_strided(&a.opened, 3, 2);
    let pair2 = (hash_elements::<F, H>(&x2), hash_elements::<F, H>(&y2));
    if authenticate_merkle_path_hash::<H>(2 * q, &pair2, &a.path2, batch_comm_1).is_err() {
        return false;
    }
    let x3 = take_strided(&a.opened, 6, 6);
    let y3 = take_strided(&a.opened, 7, 6);
    let pair3 = (hash_elements::<F, H>(&x3), hash_elements::<F, H>(&y3));
    if authenticate_merkle_path_hash::<H>(2 * q, &pair3, &a.path3, batch_comm_2).is_err() {
        return false;
    }
    let mut k: usize = 0;
    let mut b: usize = q;
    while k < rounds
        invariant
            k <= rounds,
            rounds < levels,
            a.fits(levels as nat, rounds as nat),
            m == a.model(),
            oracles@.len() == rounds,
            q < two_to((levels - 1) as nat),
            two_to(levels as nat) <= usize::MAX,
            b == ancestor(q as int, k as nat),
            path_holds::<H>(
                digest_elements::<F, H>(seq![m.opened[0], m.opened[1]]),
                q as int,
                m.path1,
                *comm,
            ),
            path_holds::<H>(column_pair_digest::<F, H>(m.opened, 2, 2), q as int, m.path2, *batch_comm_1),
            path_holds::<H>(column_pair_digest::<F, H>(m.opened, 6, 6), q as int, m.path3, *batch_comm_2),
            forall|j: int|
                0 <= j < k ==> path_holds::<H>(
                    digest_elements::<F, H>(seq![m.pairs[j][0], m.pairs[j][1]]),
                    ancestor(q as int, (j + 1) as nat),
                    #[trigger] m.paths[j],
                    oracles@[j],
                ),
        decreases rounds - k,
    {
        b = b / 2;
        proof {
            lemma_ancestor_bound(q as int, (levels - 1) as nat, (k + 1) as nat);
            lemma_two_to_monotone((levels - 2 - k) as nat, (levels - 1) as nat);
            assert(two_to(levels as nat) == 2 * two_to((levels - 1) as nat));
            assert((2 * b as int) / 2 == b);
            assert(a.pairs@[k as int]@.len() == 2);
            assert(a.paths@[k as int]@.len() == levels - 1 - k);
            assert(m.paths[k as int] == a.paths@[k as int]@);
            assert(m.pairs[k as int] == vals(a.pairs@[k as int]@));
        }
        let pair = (a.pairs[k][0], a.pairs[k][1]);
        if authenticate_merkle_path::<F, H>(2 * b, &pair, &a.paths[k], &oracles[k]).is_err() {
            assert(!path_holds::<H>(
                digest_elements::<F, H>(seq![m.pairs[k as int][0], m.pairs[k as int][1]]),
                ancestor(q as int, (k + 1) as nat),
                m.paths[k as int],
                oracles@[k as int],
            ));
            return false;
        }
        k += 1;
    }
    true
}

/// Whether `c` is the value at `r` of the line with the value `e0` at `x` and `e1` at `-x`.
fn check_fold<F: PrimeField>(x: F, e0: F, e1: F, r: F, c: F) -> (b: bool)
    ensures
        b == folds_to(F::modulus(), x.value(), e0.value(), e1.value(), r.value(), c.value()),
{
    proof {
        F::lemma_modulus();
    }
    match x.invert() {
        None => false,
        Some(inverse) => {
            let s = divided(e0.add(e1), 2);
            let d = divided(e0.sub(e1), 2);
            let m = d.mul(inverse);
            let rm = r.mul(m);
            let v = s.add(rm);
            let b = v.equals(c);
            proof {
                let p = F::modulus();
                let (xv, iv, av, bv, rv, cv) = (
                    x.value(),
                    inverse.value(),
                    e0.value(),
                    e1.value(),
                    r.value(),
                    c.value(),
                );
                lemma_mod_small(p, 1);
                lemma_cong_mod(p, av + bv);
                lemma_cong_mod(p, av - bv);
                assert(cong(p, 2 * s.value(), av + bv));
                assert(cong(p, 2 * d.value(), av - bv));
                // 2 * x * v is what it should be
                lemma_cong_mod(p, d.value() * iv);
                lemma_cong_mul(p, rv, rv, m.value(), d.value() * iv);
                lemma_cong_mod(p, rv * m.value());
                lemma_cong_add(p, s.value(), s.value(), rm.value(), rv * (d.value() * iv));
                lemma_cong_mod(p, s.value() + rm.value());
                let exact = s.value() + rv * (d.value() * iv);
                assert(cong(p, v.value(), exact));
                lemma_cong_mul(p, 2 * xv, 2 * xv, v.value(), exact);
                let (sv, dv) = (s.value(), d.value());
                assert((2 * xv) * (sv + rv * (dv * iv)) == xv * (2 * sv) + (rv * (2 * dv)) * (xv * iv)) by {
                    let w = rv * (dv * iv);
                    assert((2 * xv) * (sv + w) == (2 * xv) * sv + (2 * xv) * w) by (nonlinear_arith);
                    assert((2 * xv) * sv == xv * (2 * sv)) by (nonlinear_arith);
                    assert((2 * xv) * (rv * (dv * iv)) == (rv * (2 * dv)) * (xv * iv)) by (nonlinear_arith);
                }
                lemma_cong_mul(p, xv, xv, 2 * sv, av + bv);
                lemma_cong_mul(p, rv, rv, 2 * dv, av - bv);
                lemma_cong_mul(p, rv * (2 * dv), rv * (av - bv), xv * iv, 1);
                assert((rv * (av - bv)) * 1 == rv * (av - bv));
                lemma_cong_add(
                    p,
                    xv * (2 * sv),
                    xv * (av + bv),
                    (rv * (2 * dv)) * (xv * iv),
                    rv * (av - bv),
                );
                let target = xv * (av + bv) + rv * (av - bv);
                assert(cong(p, (2 * xv) * v.value(), target));
                if cong(p, (2 * xv) * cv, target) {
                    let vv = v.value();
                    lemma_cong_sub(p, (2 * xv) * vv, target, (2 * xv) * cv, target);
                    assert((2 * xv) * vv - (2 * xv) * cv == 2 * (xv * vv - xv * cv)) by (nonlinear_arith);
                    crate::algebra::lemma_halve(p, xv * vv - xv * cv);
                    lemma_cong_add(p, xv * vv - xv * cv, 0, xv * cv, xv * cv);
                    lemma_cancel_invertible(p, xv, iv, vv, cv);
                    v.lemma_value();
                    c.lemma_value();
                    lemma_canonical_unique(p, vv, cv);
                }
            }
            b
        },
    }
}

proof fn lemma_reversed_even(q: nat, level: nat)
    ensures
        reversed(2 * q, level + 1) == reversed(q, level),
{
    assert((2 * q) % 2 == 0 && (2 * q) / 2 == q);
    assert(0 * two_to(level) == 0);
}

/// Whether all pairs of an answer fold to the next ones.
fn check_all_folds<F: PrimeField>(
    a: &AnswerData<F>,
    q: usize,
    levels: usize,
    stream: &TableStream,
    rc: &Vec<F>,
    rs: &Vec<F>,
    Ghost(log_rate): Ghost<nat>,
) -> (r: bool)
    requires
        sizes_fit(rs@.len(), log_rate),
        levels == rs@.len() + log_rate,
        a.fits(levels as nat, rs@.len()),
        stream.wf(),
        rc@.len() >= 9,
        q < two_to((levels - 1) as nat),
    ensures
        r == folds_hold(
            F::modulus(),
            stream.seed@,
            levels as nat,
            a.model(),
            q as int,
            vals(rc@),
            vals(rs@),
        ),
{
    let ghost p = F::modulus();
    let ghost m = a.model();
    let evens = take_strided(&a.opened, 0, 9);
    let odds = take_strided(&a.opened, 1, 9);
    let mut first: Vec<F> = Vec::new();
    let mut i: usize = 0;
    while i < 9
        invariant
            i <= 9,
            rc@.len() >= 9,
            first@.len() == i,
            forall|j: int| 0 <= j < i ==> (#[trigger] first@[j]) == rc@[j],
        decreases 9 - i,
    {
        first.push(rc[i]);
        i += 1;
    }
    let mut e0 = inner_product(&first, &evens);
    let mut e1 = inner_product(&first, &odds);
    proof {
        let c = vals(rc@);
        assert(vals(evens@).len() == 9 && vals(odds@).len() == 9);
        assert(Seq::new(9, |i: int| vals(first@)[i] * vals(evens@)[i]) =~= Seq::new(
            9,
            |i: int| c[i] * m.opened[2 * i],
        ));
        assert(Seq::new(9, |i: int| vals(first@)[i] * vals(odds@)[i]) =~= Seq::new(
            9,
            |i: int| c[i] * m.opened[2 * i + 1],
        ));
        assert(e0.value() == round_pair(p, m, c, 0).0);
        assert(e1.value() == round_pair(p, m, c, 0).1);
    }
    let rounds = rs.len();
    let mut b: usize = q;
    let mut k: usize = 0;
    while k < rounds
        invariant
            k <= rounds,
            rounds == rs@.len(),
            sizes_fit(rs@.len(), log_rate),
            levels == rs@.len() + log_rate,
            a.fits(levels as nat, rounds as nat),
            m == a.model(),
            p == F::modulus(),
            stream.wf(),
            q < two_to((levels - 1) as nat),
            b == ancestor(q as int, k as nat),
            e0.value() == round_pair(p, m, vals(rc@), k as int).0,
            e1.value() == round_pair(p, m, vals(rc@), k as int).1,
            forall|j: int|
                0 <= j < k ==> #[trigger] fold_holds(
                    p,
                    stream.seed@,
                    levels as nat,
                    m,
                    q as int,
                    vals(rc@),
                    vals(rs@),
                    j,
                ),
        decreases rounds - k,
    {
        let level: usize = levels - 1 - k;
        proof {
            lemma_ancestor_bound(q as int, (levels - 1) as nat, k as nat);
            lemma_two_to_monotone(level as nat, (levels - 1) as nat);
            lemma_two_to_monotone((level + 1) as nat, levels as nat);
            assert(two_to((level + 1) as nat) == 2 * two_to(level as nat));
            lemma_reversed_even(b as nat, level as nat);
            lemma_reversed_bound(b as nat, level as nat);
            lemma_two_to_positive(level as nat);
        }
        let block = pow_two(level + 1);
        let ri0 = reverse_bits(2 * b, level + 1);
        let x0: F = query_point(block, ri0, stream, level);
        proof {
            let i = reversed(b as nat, level as nat) as int;
            assert(ri0 == i);
            assert(i < block);
            vstd::arithmetic::div_mod::lemma_small_mod(i as nat, block as nat);
            vstd::arithmetic::div_mod::lemma_small_mod(i as nat, two_to(level as nat));
            assert(x0.value() == fold_point(p, stream.seed@, levels as nat, q as int, k as int));
            assert(a.pairs@[k as int]@.len() == 2);
            assert(m.pairs[k as int] == vals(a.pairs@[k as int]@));
        }
        let target = a.pairs[k][b % 2];
        if !check_fold(x0, e0, e1, rs[k], target) {
            assert(!fold_holds(
                p,
                stream.seed@,
                levels as nat,
                m,
                q as int,
                vals(rc@),
                vals(rs@),
                k as int,
            ));
            return false;
        }
        e0 = a.pairs[k][0];
        e1 = a.pairs[k][1];
        b = b / 2;
        k += 1;
    }
    true
}

/// The rounds of the verifier. Returns the last claim, the challenges and the roots.
fn fold_phase_check<F: PrimeField, T: TranscriptRead<F>>(claim: F, rounds: usize, transcript: &mut T) -> (res:
    Result<(F, Vec<F>, Vec<Output>), Error>)
    ensures
        ({
            let s = check_folds(
                F::modulus(),
                T::oracle(),
                checking(old(transcript).rx()),
                claim.value(),
                rounds as nat,
            );
            &&& final(transcript).rx() == s.check.rx
            &&& outcome(res, s.check.err)
            &&& res matches Ok(x) ==> x.0.value() == s.claim && vals(x.1@) == s.point && x.2@
                == s.oracles && x.1@.len() == rounds && x.2@.len() == rounds
        }),
{
    let ghost p = F::modulus();
    let ghost ch = T::oracle();
    let ghost check = checking(transcript.rx());
    let ghost sh = fold_shape(p, ch);
    let mut current = claim;
    let mut point: Vec<F> = Vec::new();
    let mut oracles: Vec<Output> = Vec::new();
    let mut k: usize = 0;
    assert(vals(point@) =~= Seq::empty());
    while k < rounds
        invariant
            k <= rounds,
            p == F::modulus(),
            ch == T::oracle(),
            sh == fold_shape(p, ch),
            check == checking(old(transcript).rx()),
            point@.len() == k,
            oracles@.len() == k,
            check_folds(p, ch, check, claim.value(), k as nat) == (FoldChecking {
                check: checking(transcript.rx()),
                claim: current.value(),
                point: vals(point@),
                oracles: oracles@,
            }),
        decreases rounds - k,
    {
        let ghost s = check_folds(p, ch, check, claim.value(), k as nat);
        let ghost t = check_round(sh, Claiming { check: s.check, claim: s.claim, point: s.point });
        proof {
            lemma_one_round(sh, s.check, s.claim, s.point);
        }
        let (next, rs) = match crate::rounds::sum_check_verify::<F, T>(
            current,
            2,
            true,
            1,
            transcript,
        ) {
            Ok(x) => x,
            Err(e) => {
                proof {
                    lemma_check_folds_failed(p, ch, check, claim.value(), (k + 1) as nat, rounds as nat);
                }
                return Err(e);
            },
        };
        let root = match transcript.read_commitment() {
            Ok(x) => x,
            Err(e) => {
                proof {
                    lemma_check_folds_failed(p, ch, check, claim.value(), (k + 1) as nat, rounds as nat);
                }
                return Err(e);
            },
        };
        let ghost before = point@;
        point.push(rs[0]);
        proof {
            assert(vals(rs@)[0] == rs@[0].value());
            assert(vals(point@) =~= vals(before).push(rs@[0].value()));
        }
        oracles.push(root);
        current = next;
        k += 1;
    }
    Ok((current, point, oracles))
}

/// A single round, whatever the challenges before it.
proof fn lemma_one_round(sh: Shape, check: Check, claim: int, point: Seq<int>)
    ensures
        ({
            let t = check_round(sh, Claiming { check, claim, point });
            let u = crate::rounds::check_rounds(sh, check, claim, 1);
            &&& t.check == u.check
            &&& t.claim == u.claim
            &&& u.point.len() == 1
            &&& t.point == point.push(u.point[0])
        }),
{
    let s0 = crate::rounds::check_rounds(sh, check, claim, 0);
    assert(s0 == (Claiming { check, claim, point: Seq::empty() }));
    assert(crate::rounds::check_rounds(sh, check, claim, 1) == check_round(sh, s0));
}

/// Checks the opening of nine polynomials at `point` to the values `evals`. The first has a
/// commitment of its own, the next two share one, and so do the last six.
#[verifier::rlimit(60)]
pub fn basefold_batch_verify<F: PrimeField, H: HashFunction, T: TranscriptRead<F>>(
    vp: &BasefoldVerifierParams<F>,
    random_combiners: &Vec<F>,
    point: &Vec<F>,
    comm: &Output,
    batch_comm_1: &Output,
    batch_comm_2: &Output,
    evals: &Vec<F>,
    transcript: &mut T,
) -> (res: Result<(), Error>)
    requires
        vp.wf(),
        random_combiners@.len() >= 9,
        point@.len() == vp.num_vars,
    ensures
        ({
            let c = check_batch::<F, H>(
                F::modulus(),
                T::oracle(),
                checking(old(transcript).rx()),
                vp.seed@,
                vp.num_vars as nat,
                vp.log_rate as nat,
                vp.num_verifier_queries as nat,
                vals(random_combiners@),
                vals(point@),
                *comm,
                *batch_comm_1,
                *batch_comm_2,
                vals(evals@),
            );
            &&& final(transcript).rx() == c.rx
            &&& outcome(res, c.err)
        }),
{
    let ghost p = F::modulus();
    let ghost ch = T::oracle();
    let ghost check = checking(transcript.rx());
    let ghost rc = vals(random_combiners@);
    let num_vars = vp.num_vars;
    proof {
        F::lemma_modulus();
        lemma_two_to_fits((num_vars + vp.log_rate) as nat);
    }
    let levels: usize = num_vars + vp.log_rate;
    let num_queries = vp.num_verifier_queries;
    let claim = inner_product(random_combiners, evals);
    let ghost s = check_folds(p, ch, check, claim.value(), num_vars as nat);
    let (last, rs, oracles) = match fold_phase_check::<F, T>(claim, num_vars, transcript) {
        Ok(x) => x,
        Err(e) => {
            proof {
                lemma_check_batch_failed::<F, H>(
                    p,
                    ch,
                    check,
                    vp.seed@,
                    num_vars as nat,
                    vp.log_rate as nat,
                    num_queries as nat,
                    rc,
                    vals(point@),
                    *comm,
                    *batch_comm_1,
                    *batch_comm_2,
                    vals(evals@),
                );
            }
            return Err(e);
        },
    };
    let eq = evaluate_eq(point, &rs);
    let ghost e = eq_points(vals(point@), s.point) % p;
    let inverse = match eq.invert() {
        Some(x) => x,
        None => {
            proof {
                lemma_failed_tail(
                    s.check.fail(Error::Folding),
                    ch,
                    levels as nat,
                    num_vars as nat,
                    num_queries as nat,
                );
            }
            return Err(Error::Folding);
        },
    };
    let final_eval = last.mul(inverse);
    proof {
        let (ev, iv, lv, fv) = (eq.value(), inverse.value(), last.value(), final_eval.value());
        lemma_mod_small(p, 1);
        lemma_cong_mod(p, lv * iv);
        lemma_cong_mul(p, fv, lv * iv, ev, ev);
        assert((lv * iv) * ev == lv * (ev * iv)) by (nonlinear_arith);
        lemma_cong_mul(p, lv, lv, ev * iv, 1);
        assert(lv * 1 == lv);
        final_eval.lemma_value();
        assert(is_quotient(p, s.claim, e, fv));
        let g = quotient(p, s.claim, e);
        assert(is_quotient(p, s.claim, e, g));
        assert(fv * e == e * fv && g * e == e * g) by (nonlinear_arith);
        lemma_cancel_invertible(p, e, iv, fv, g);
        lemma_canonical_unique(p, fv, g);
    }
    proof {
        lemma_two_to_monotone(vp.log_rate as nat, levels as nat);
        lemma_two_to_monotone(1, vp.log_rate as nat);
        assert(two_to(1) == 2 * two_to(0));
        lemma_log2_two_to(vp.log_rate as nat);
    }
    let rate = pow_two(vp.log_rate);
    let final_oracle_plain = repeat_element(final_eval, rate);
    let ghost plain = Seq::new(two_to(vp.log_rate as nat), |i: int| quotient(p, s.claim, e));
    assert(vals(final_oracle_plain@) =~= plain);
    let tree = merkelize::<F, H>(&final_oracle_plain);
    proof {
        lemma_element_tree_shape::<F, H>(plain, vp.log_rate as nat);
        let t = tree_view(tree@);
        assert(t[tree@.len() - 1] == tree@[tree@.len() - 1]@);
        assert(t[tree@.len() - 1].len() == two_to(0));
    }
    if !same_output(&tree[tree.len() - 1][0], &oracles[oracles.len() - 1]) {
        proof {
            lemma_failed_tail(
                s.check.fail(Error::FinalOracle),
                ch,
                levels as nat,
                num_vars as nat,
                num_queries as nat,
            );
        }
        return Err(Error::FinalOracle);
    }
    let drawn = read_challenges::<F, T>(transcript, num_queries);
    proof {
        crate::transcript::lemma_squeeze_many_rx(s.check, ch, num_queries as nat);
        crate::transcript::lemma_challenges_len(ch, s.check.rx.hist, num_queries as nat);
        assert(vals(drawn@).len() == drawn@.len());
        lemma_two_to_monotone((levels - 1) as nat, levels as nat);
        lemma_two_to_positive((levels - 1) as nat);
    }
    let cap = pow_two(levels - 1);
    let ghost qs = query_indices(vals(drawn@), cap as int);
    let ghost c3 = checking(transcript.rx());
    let mut answers: Vec<AnswerData<F>> = Vec::new();
    let ghost mut models: Seq<Answer> = Seq::empty();
    let mut i: usize = 0;
    while i < num_queries
        invariant
            i <= num_queries,
            num_vars < levels,
            answers@.len() == i,
            models.len() == i,
            forall|j: int| 0 <= j < i ==> (#[trigger] answers@[j]).model() == models[j],
            forall|j: int|
                0 <= j < i ==> (#[trigger] answers@[j]).fits(levels as nat, num_vars as nat),
            read_answers(c3, levels as nat, num_vars as nat, i as nat) == (
                checking(transcript.rx()),
                models,
            ),
            check_batch::<F, H>(
                F::modulus(),
                T::oracle(),
                checking(old(transcript).rx()),
                vp.seed@,
                vp.num_vars as nat,
                vp.log_rate as nat,
                vp.num_verifier_queries as nat,
                vals(random_combiners@),
                vals(point@),
                *comm,
                *batch_comm_1,
                *batch_comm_2,
                vals(evals@),
            ) == check_answers::<F, H>(
                F::modulus(),
                c3,
                vp.seed@,
                num_vars as nat,
                levels as nat,
                num_queries as nat,
                rc,
                s.point,
                qs,
                *comm,
                *batch_comm_1,
                *batch_comm_2,
                s.oracles,
            ),
        decreases num_queries - i,
    {
        match read_one::<F, T>(transcript, levels, num_vars) {
            Ok(x) => {
                proof {
                    models = models.push(x.model());
                }
                answers.push(x);
            },
            Err(e) => {
                proof {
                    lemma_read_answers_failed(
                        c3,
                        levels as nat,
                        num_vars as nat,
                        (i + 1) as nat,
                        num_queries as nat,
                    );
                }
                return Err(e);
            },
        }
        i += 1;
    }
    i = 0;
    while i < num_queries
        invariant
            i <= num_queries,
            num_vars < levels,
            answers@.len() == num_queries,
            drawn@.len() == num_queries,
            models.len() == num_queries,
            cap == two_to((levels - 1) as nat),
            cap >= 1,
            two_to(levels as nat) <= usize::MAX,
            oracles@ == s.oracles,
            oracles@.len() == num_vars,
            qs == query_indices(vals(drawn@), cap as int),
            forall|j: int| 0 <= j < num_queries ==> (#[trigger] answers@[j]).model() == models[j],
            forall|j: int|
                0 <= j < num_queries ==> (#[trigger] answers@[j]).fits(
                    levels as nat,
                    num_vars as nat,
                ),
            read_answers(c3, levels as nat, num_vars as nat, num_queries as nat) == (
                checking(transcript.rx()),
                models,
            ),
            check_batch::<F, H>(
                F::modulus(),
                T::oracle(),
                checking(old(transcript).rx()),
                vp.seed@,
                vp.num_vars as nat,
                vp.log_rate as nat,
                vp.num_verifier_queries as nat,
                vals(random_combiners@),
                vals(point@),
                *comm,
                *batch_comm_1,
                *batch_comm_2,
                vals(evals@),
            ) == check_answers::<F, H>(
                F::modulus(),
                c3,
                vp.seed@,
                num_vars as nat,
                levels as nat,
                num_queries as nat,
                rc,
                s.point,
                qs,
                *comm,
                *batch_comm_1,
                *batch_comm_2,
                s.oracles,
            ),
            forall|j: int|
                0 <= j < i ==> paths_hold::<F, H>(
                    #[trigger] models[j],
                    qs[j],
                    num_vars as nat,
                    *comm,
                    *batch_comm_1,
                    *batch_comm_2,
                    s.oracles,
                ),
        decreases num_queries - i,
    {
        let q = element_index(drawn[i], cap);
        assert(qs[i as int] == q);
        assert(answers@[i as int].model() == models[i as int]);
        if !check_paths::<F, H>(
            &answers[i],
            q,
            levels,
            num_vars,
            comm,
            batch_comm_1,
            batch_comm_2,
            &oracles,
        ) {
            assert(!paths_hold::<F, H>(
                models[i as int],
                qs[i as int],
                num_vars as nat,
                *comm,
                *batch_comm_1,
                *batch_comm_2,
                s.oracles,
            ));
            return Err(Error::MerklePath);
        }
        i += 1;
    }
    let stream = TableStream::new(vp.seed);
    i = 0;
    while i < num_queries
        invariant
            i <= num_queries,
            answers@.len() == num_queries,
            drawn@.len() == num_queries,
            models.len() == num_queries,
            cap == two_to((levels - 1) as nat),
            cap >= 1,
            stream.wf(),
            stream.seed == vp.seed,
            vp.wf(),
            num_vars == vp.num_vars,
            levels == num_vars + vp.log_rate,
            rs@.len() == num_vars,
            vals(rs@) == s.point,
            rc == vals(random_combiners@),
            random_combiners@.len() >= 9,
            p == F::modulus(),
            qs == query_indices(vals(drawn@), cap as int),
            forall|j: int| 0 <= j < num_queries ==> (#[trigger] answers@[j]).model() == models[j],
            forall|j: int|
                0 <= j < num_queries ==> (#[trigger] answers@[j]).fits(
                    levels as nat,
                    num_vars as nat,
                ),
            read_answers(c3, levels as nat, num_vars as nat, num_queries as nat) == (
                checking(transcript.rx()),
                models,
            ),
            check_batch::<F, H>(
                F::modulus(),
                T::oracle(),
                checking(old(transcript).rx()),
                vp.seed@,
                vp.num_vars as nat,
                vp.log_rate as nat,
                vp.num_verifier_queries as nat,
                vals(random_combiners@),
                vals(point@),
                *comm,
                *batch_comm_1,
                *batch_comm_2,
                vals(evals@),
            ) == check_answers::<F, H>(
                F::modulus(),
                c3,
                vp.seed@,
                num_vars as nat,
                levels as nat,
                num_queries as nat,
                rc,
                s.point,
                qs,
                *comm,
                *batch_comm_1,
                *batch_comm_2,
                s.oracles,
            ),
            forall|j: int|
                0 <= j < num_queries ==> paths_hold::<F, H>(
                    #[trigger] models[j],
                    qs[j],
                    num_vars as nat,
                    *comm,
                    *batch_comm_1,
                    *batch_comm_2,
                    s.oracles,
                ),
            forall|j: int|
                0 <= j < i ==> folds_hold(
                    p,
                    vp.seed@,
                    levels as nat,
                    #[trigger] models[j],
                    qs[j],
                    rc,
                    s.point,
                ),
        decreases num_queries - i,
    {
        let q = element_index(drawn[i], cap);
        assert(qs[i as int] == q);
        assert(answers@[i as int].model() == models[i as int]);
        if !check_all_folds(
            &answers[i],
            q,
            levels,
            &stream,
            random_combiners,
            &rs,
            Ghost(vp.log_rate as nat),
        ) {
            assert(!folds_hold(
                p,
                vp.seed@,
                levels as nat,
                models[i as int],
                qs[i as int],
                rc,
                s.point,
            ));
            return Err(Error::Folding);
        }
        i += 1;
    }
    Ok(())
}

/// The part of the check after the queries are drawn.
pub open spec fn check_answers<F: PrimeField, H: HashFunction>(
    p: int,
    c3: Check,
    seed: Seq<u8>,
    num_vars: nat,
    levels: nat,
    num_queries: nat,
    rc: Seq<int>,
    rs: Seq<int>,
    qs: Seq<int>,
    comm: Output,
    batch_comm_1: Output,
    batch_comm_2: Output,
    oracles: Seq<Output>,
) -> Check {
    let (c4, answers) = read_answers(c3, levels, num_vars, num_queries);
    let c5 = c4.require(
        forall|i: int|
            0 <= i < num_queries ==> paths_hold::<F, H>(
                #[trigger] answers[i],
                qs[i],
                num_vars,
                comm,
                batch_comm_1,
                batch_comm_2,
                oracles,
            ),
        Error::MerklePath,
    );
    c5.require(
        forall|i: int|
            0 <= i < num_queries ==> folds_hold(
                p,
                seed,
                levels,
                #[trigger] answers[i],
                qs[i],
                rc,
                rs,
            ),
        Error::Folding,
    )
}

proof fn lemma_two_to_fits(n: nat)
    requires
        two_to(n) <= usize::MAX,
    ensures
        n <= usize::MAX,
{
    lemma_below_two_to(n);
}

proof fn lemma_below_two_to(n: nat)
    ensures
        n < two_to(n),
    decreases n,
{
    if n > 0 {
        lemma_below_two_to((n - 1) as nat);
    }
}

} // verus!
