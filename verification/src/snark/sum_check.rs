//! The sum-checks of the proof system.
use vstd::prelude::*;
use crate::algebra::{
    cong, lemma_cong_add, lemma_cong_mod, lemma_cong_mul, lemma_cong_sub, lemma_mod_small,
    lemma_two_to_positive, two_to,
};
use crate::bits::{ceil_log2, is_power_of_two, lemma_ceil_log2, log2, log2_of};
use crate::brakingbase_helper::{eq, evaluate_eq, point_to_tensor};
use crate::brakingbase_verify::{lemma_accumulate, lemma_equal_iff_cong, lemma_failed};
use crate::code::index_values;
use crate::combiners::{
    lemma_comb_sum, lemma_degree_lift, lemma_prod2, lemma_prod3, prod2, prod3, term2, term3,
};
use crate::error::{Error, outcome};
use crate::field::{PrimeField, copy_elements, vals, vals2};
use crate::multilinear::{eq_points, eq_prod, tensor};
use crate::poly::MultilinearPolynomial;
use crate::rounds::{
    Comb, Combiner, check_rounds, has_degree, prove_rounds, respects, sum_check_prove,
    sum_check_verify, uniform,
};
use crate::snark::helper::{
    SparseRep, all_entries, bound_rows, columns_below, dim_of, larger, lemma_rows_below,
    matrix_product, sparse_matrix_multiply,
};
use crate::sum_checks::{
    batch_shape, cubic_shape, lemma_halvings, lemma_rounds_len, quadratic_shape,
};
use crate::sums::{lemma_sum_step, sum_of};
use crate::transcript::{
    Check, Oracle, TranscriptRead, TranscriptWrite, Tx, challenges, checking, lemma_challenges_len,
    lemma_read_many_len, lemma_squeeze_many_rx, read_challenges, read_field_elements,
    squeeze_challenges, write_field_elements,
};

verus! {

/// How far a row is from meeting its constraint, weighed.
pub open spec fn relation_comb(u: int) -> Comb {
    |v: Seq<int>| v[0] * (v[1] * v[2] - (u * v[3] + v[4]))
}

/// The relation is of degree three.
pub proof fn lemma_relation_comb(p: int, u: int)
    requires
        p > 0,
    ensures
        has_degree(relation_comb(u), 5, 3),
        respects(p, relation_comb(u), 5),
{
    let f = prod3(1, 0, 1, 2);
    let g = prod2(-u, 0, 3);
    let h = prod2(-1, 0, 4);
    lemma_prod3(p, 1, 0, 1, 2, 5);
    lemma_prod2(p, -u, 0, 3, 5);
    lemma_prod2(p, -1, 0, 4, 5);
    lemma_degree_lift(g, 5);
    lemma_degree_lift(h, 5);
    let gh = |v: Seq<int>| g(v) + h(v);
    lemma_comb_sum(p, g, h, gh, 5, 3);
    let all = relation_comb(u);
    assert forall|v: Seq<int>| #[trigger] all(v) == f(v) + gh(v) by {
        let (a, b, c, d, e) = (v[0], v[1], v[2], v[3], v[4]);
        assert(a * (b * c - (u * d + e)) == 1 * (a * b * c) + ((-u) * (a * d) + (-1) * (a * e)))
            by (nonlinear_arith);
    }
    lemma_comb_sum(p, f, gh, all, 5, 3);
}

/// Computes the relation.
pub struct RelationCombiner<F: PrimeField> {
    pub u: F,
}

impl<F: PrimeField> Combiner<F> for RelationCombiner<F> {
    open spec fn comb(&self) -> Comb {
        relation_comb(self.u.value())
    }

    open spec fn arity(&self) -> nat {
        5
    }

    open spec fn degree(&self) -> nat {
        3
    }

    proof fn lemma_combiner(&self) {
        F::lemma_modulus();
        lemma_relation_comb(F::modulus(), self.u.value());
    }

    fn combine(&self, values: &Vec<F>) -> (r: F) {
        let bc = values[1].mul(values[2]);
        let ud = self.u.mul(values[3]);
        let rest = ud.add(values[4]);
        let d = bc.sub(rest);
        proof {
            F::lemma_modulus();
            let p = F::modulus();
            let v = vals(values@);
            let u = self.u.value();
            lemma_cong_mod(p, v[1] * v[2]);
            lemma_cong_mod(p, u * v[3]);
            lemma_cong_add(p, ud.value(), u * v[3], v[4], v[4]);
            lemma_cong_mod(p, ud.value() + v[4]);
            lemma_cong_sub(p, bc.value(), v[1] * v[2], rest.value(), u * v[3] + v[4]);
            lemma_cong_mod(p, bc.value() - rest.value());
            lemma_cong_mul(p, v[0], v[0], d.value(), v[1] * v[2] - (u * v[3] + v[4]));
        }
        values[0].mul(d)
    }

    fn is_cubic(&self) -> (r: bool) {
        true
    }
}

/// Three tables, weighed, times a fourth.
pub open spec fn weighted_comb(rc: Seq<int>) -> Comb {
    |v: Seq<int>| rc[0] * (v[0] * v[3]) + rc[1] * (v[1] * v[3]) + rc[2] * (v[2] * v[3])
}

/// The weighted tables are of degree two.
pub proof fn lemma_weighted_comb(p: int, rc: Seq<int>)
    requires
        p > 0,
    ensures
        has_degree(weighted_comb(rc), 4, 2),
        respects(p, weighted_comb(rc), 4),
{
    let f = prod2(rc[0], 0, 3);
    let g = prod2(rc[1], 1, 3);
    let h = prod2(rc[2], 2, 3);
    lemma_prod2(p, rc[0], 0, 3, 4);
    lemma_prod2(p, rc[1], 1, 3, 4);
    lemma_prod2(p, rc[2], 2, 3, 4);
    let fg = |v: Seq<int>| f(v) + g(v);
    lemma_comb_sum(p, f, g, fg, 4, 2);
    lemma_comb_sum(p, fg, h, weighted_comb(rc), 4, 2);
}

/// Computes the weighted tables.
pub struct WeightedCombiner<F: PrimeField> {
    pub rc: [F; 3],
}

impl<F: PrimeField> Combiner<F> for WeightedCombiner<F> {
    open spec fn comb(&self) -> Comb {
        weighted_comb(seq![self.rc@[0].value(), self.rc@[1].value(), self.rc@[2].value()])
    }

    open spec fn arity(&self) -> nat {
        4
    }

    open spec fn degree(&self) -> nat {
        2
    }

    proof fn lemma_combiner(&self) {
        F::lemma_modulus();
        lemma_weighted_comb(
            F::modulus(),
            seq![self.rc@[0].value(), self.rc@[1].value(), self.rc@[2].value()],
        );
    }

    fn combine(&self, values: &Vec<F>) -> (r: F) {
        let a = term2(self.rc[0], values[0], values[3]);
        let b = term2(self.rc[1], values[1], values[3]);
        let c = term2(self.rc[2], values[2], values[3]);
        let ab = a.add(b);
        proof {
            let rc = seq![self.rc@[0].value(), self.rc@[1].value(), self.rc@[2].value()];
            lemma_three_terms::<F>(
                a,
                b,
                c,
                ab,
                rc[0] * (values@[0].value() * values@[3].value()),
                rc[1] * (values@[1].value() * values@[3].value()),
                rc[2] * (values@[2].value() * values@[3].value()),
            );
        }
        ab.add(c)
    }

    fn is_cubic(&self) -> (r: bool) {
        false
    }
}

/// The sum of three reduced terms.
proof fn lemma_three_terms<F: PrimeField>(a: F, b: F, c: F, ab: F, x: int, y: int, z: int)
    requires
        a.value() == x % F::modulus(),
        b.value() == y % F::modulus(),
        c.value() == z % F::modulus(),
        ab.value() == (a.value() + b.value()) % F::modulus(),
    ensures
        (ab.value() + c.value()) % F::modulus() == (x + y + z) % F::modulus(),
{
    let p = F::modulus();
    F::lemma_modulus();
    lemma_cong_mod(p, x);
    lemma_cong_mod(p, y);
    lemma_cong_mod(p, z);
    lemma_cong_add(p, a.value(), x, b.value(), y);
    lemma_cong_mod(p, a.value() + b.value());
    lemma_cong_add(p, ab.value(), x + y, c.value(), z);
}

/// Three products of three tables, weighed.
pub open spec fn triples_comb(rc: Seq<int>) -> Comb {
    |v: Seq<int>|
        rc[0] * (v[0] * v[3] * v[6]) + rc[1] * (v[1] * v[4] * v[7]) + rc[2] * (v[2] * v[5] * v[8])
}

/// The products are of degree three.
pub proof fn lemma_triples_comb(p: int, rc: Seq<int>)
    requires
        p > 0,
    ensures
        has_degree(triples_comb(rc), 9, 3),
        respects(p, triples_comb(rc), 9),
{
    let f = prod3(rc[0], 0, 3, 6);
    let g = prod3(rc[1], 1, 4, 7);
    let h = prod3(rc[2], 2, 5, 8);
    lemma_prod3(p, rc[0], 0, 3, 6, 9);
    lemma_prod3(p, rc[1], 1, 4, 7, 9);
    lemma_prod3(p, rc[2], 2, 5, 8, 9);
    let fg = |v: Seq<int>| f(v) + g(v);
    lemma_comb_sum(p, f, g, fg, 9, 3);
    lemma_comb_sum(p, fg, h, triples_comb(rc), 9, 3);
}

/// Computes the products.
pub struct TriplesCombiner<F: PrimeField> {
    pub rc: [F; 3],
}

impl<F: PrimeField> Combiner<F> for TriplesCombiner<F> {
    open spec fn comb(&self) -> Comb {
        triples_comb(seq![self.rc@[0].value(), self.rc@[1].value(), self.rc@[2].value()])
    }

    open spec fn arity(&self) -> nat {
        9
    }

    open spec fn degree(&self) -> nat {
        3
    }

    proof fn lemma_combiner(&self) {
        F::lemma_modulus();
        lemma_triples_comb(
            F::modulus(),
            seq![self.rc@[0].value(), self.rc@[1].value(), self.rc@[2].value()],
        );
    }

    fn combine(&self, values: &Vec<F>) -> (r: F) {
        let a = term3(self.rc[0], values[0], values[3], values[6]);
        let b = term3(self.rc[1], values[1], values[4], values[7]);
        let c = term3(self.rc[2], values[2], values[5], values[8]);
        let ab = a.add(b);
        proof {
            let v = vals(values@);
            lemma_three_terms::<F>(
                a,
                b,
                c,
                ab,
                self.rc@[0].value() * (v[0] * v[3] * v[6]),
                self.rc@[1].value() * (v[1] * v[4] * v[7]),
                self.rc@[2].value() * (v[2] * v[5] * v[8]),
            );
        }
        ab.add(c)
    }

    fn is_cubic(&self) -> (r: bool) {
        true
    }
}

/// The transcript after a sum-check, and its point.
pub struct Layer {
    pub tx: Tx,
    pub point: Seq<int>,
}

/// The sum-check for the constraints.
pub open spec fn first_layer(
    p: int,
    ch: Oracle,
    tx: Tx,
    a: Seq<Seq<(int, int)>>,
    b: Seq<Seq<(int, int)>>,
    c: Seq<Seq<(int, int)>>,
    u: int,
    z: Seq<int>,
    e: Seq<int>,
) -> Layer {
    let rounds = log2_of(z.len());
    let tau = challenges(ch, tx.hist, rounds);
    let r = prove_rounds(
        cubic_shape(p, ch),
        relation_comb(u),
        tx.squeeze_many(rounds),
        seq![
            tensor(p, tau),
            matrix_product(p, a, z),
            matrix_product(p, b, z),
            matrix_product(p, c, z),
            e,
        ],
        rounds,
    );
    Layer {
        tx: r.tx.write_all(
            seq![r.tables[1][0], r.tables[2][0], r.tables[3][0], r.tables[4][0]],
        ),
        point: r.point,
    }
}

/// The three matrices fit a vector with a power of two entries.
pub open spec fn matrix_fits<F: PrimeField>(m: SparseRep<F>, n: nat) -> bool {
    &&& m.wf()
    &&& m.rows().len() <= n
    &&& columns_below(m.rows(), n as int)
}

/// Runs the sum-check for the constraints.
#[allow(non_snake_case)]
pub fn first_layer_sum_check<F: PrimeField, T: TranscriptWrite<F>>(
    A: &SparseRep<F>,
    B: &SparseRep<F>,
    C: &SparseRep<F>,
    u: &F,
    z: &Vec<F>,
    E: Vec<F>,
    transcript: &mut T,
) -> (r: Vec<F>)
    requires
        z@.len() >= 1,
        is_power_of_two(z@.len()),
        E@.len() == z@.len(),
        matrix_fits(*A, z@.len()),
        matrix_fits(*B, z@.len()),
        matrix_fits(*C, z@.len()),
    ensures
        first_layer(
            F::modulus(),
            T::oracle(),
            old(transcript).tx(),
            A.rows(),
            B.rows(),
            C.rows(),
            u.value(),
            vals(z@),
            vals(E@),
        ) == (Layer { tx: final(transcript).tx(), point: vals(r@) }),
        r@.len() == log2_of(z@.len()),
{
    let ghost n = z@.len();
    let ghost t0 = transcript.tx();
    let az = sparse_matrix_multiply(A, z);
    let bz = sparse_matrix_multiply(B, z);
    let cz = sparse_matrix_multiply(C, z);
    let rounds = log2(z.len());
    let tau = squeeze_challenges::<F, T>(transcript, rounds);
    proof {
        lemma_challenges_len(T::oracle(), t0.hist, rounds as nat);
        assert(vals(tau@).len() == tau@.len());
        assert(two_to(0) == 1);
        assert(log2_of(1) == 0);
        assert(vals(tau@).take(tau@.len() as int) =~= vals(tau@));
    }
    let weights = point_to_tensor(1, &tau).1;
    assert(vals(weights@).len() == weights@.len());
    let ghost ts = seq![vals(weights@), vals(az@), vals(bz@), vals(cz@), vals(E@)];
    let mut tables: Vec<Vec<F>> = Vec::new();
    tables.push(weights);
    tables.push(az);
    tables.push(bz);
    tables.push(cz);
    tables.push(E);
    proof {
        assert(vals2(tables@) =~= ts);
        assert(uniform(ts, n));
    }
    let combiner = RelationCombiner { u: *u };
    let point = sum_check_prove(&mut tables, &combiner, true, rounds, transcript);
    proof {
        lemma_left_over(
            cubic_shape(F::modulus(), T::oracle()),
            relation_comb(u.value()),
            t0.squeeze_many(rounds as nat),
            ts,
            n,
            rounds as nat,
        );
        assert forall|i: int| 0 <= i < 5 implies (#[trigger] tables@[i])@.len() >= 1 by {
            assert(vals2(tables@)[i].len() >= 1);
        }
    }
    let mut evals: Vec<F> = Vec::new();
    evals.push(tables[1][0]);
    evals.push(tables[2][0]);
    evals.push(tables[3][0]);
    evals.push(tables[4][0]);
    proof {
        let t = vals2(tables@);
        assert(vals(evals@) =~= seq![t[1][0], t[2][0], t[3][0], t[4][0]]);
    }
    write_field_elements(transcript, &evals);
    point
}

/// Every table holds at least one entry after all rounds.
pub proof fn lemma_left_over(
    sh: crate::rounds::Shape,
    comb: Comb,
    tx: Tx,
    ts: Seq<Seq<int>>,
    len: nat,
    n: nat,
)
    requires
        uniform(ts, len),
        two_to(n) <= len,
    ensures
        ({
            let t = prove_rounds(sh, comb, tx, ts, n).tables;
            &&& t.len() == ts.len()
            &&& forall|i: int| 0 <= i < t.len() ==> (#[trigger] t[i]).len() >= 1
        }),
{
    lemma_rounds_len(sh, comb, tx, ts, len, n);
    lemma_halvings(len, n);
}

/// The sum-check for the products of the matrices with the vector.
pub open spec fn parallel(
    p: int,
    ch: Oracle,
    tx: Tx,
    a: Seq<Seq<(int, int)>>,
    b: Seq<Seq<(int, int)>>,
    c: Seq<Seq<(int, int)>>,
    z: Seq<int>,
    w: Seq<int>,
) -> Layer {
    let n = z.len();
    let rc = challenges(ch, tx.hist, 3);
    let r = prove_rounds(
        quadratic_shape(p, ch),
        weighted_comb(rc),
        tx.squeeze_many(3),
        seq![bound_rows(p, a, w, n), bound_rows(p, b, w, n), bound_rows(p, c, w, n), z],
        log2_of(n),
    );
    Layer {
        tx: r.tx.write_all(seq![r.tables[0][0], r.tables[1][0], r.tables[2][0]]),
        point: r.point,
    }
}

/// A matrix with few rows and a power of two columns.
proof fn lemma_dim(rows: nat, n: nat)
    requires
        n >= 1,
        is_power_of_two(n),
        rows <= n,
    ensures
        dim_of(rows, n) == n,
{
    assert(larger(rows, n) == n);
    let k = log2_of(n);
    let c = ceil_log2(n);
    lemma_ceil_log2(n);
    if c < k {
        crate::algebra::lemma_two_to_monotone(c + 1, k);
        assert(two_to(c + 1) == 2 * two_to(c));
        lemma_two_to_positive(c);
    }
    if c > k {
        crate::algebra::lemma_two_to_monotone(k, (c - 1) as nat);
        assert(two_to(0) == 1);
    }
}

/// The entries of a matrix that fits stand in its square.
proof fn lemma_entries_below<F: PrimeField>(m: SparseRep<F>, n: nat)
    requires
        matrix_fits(m, n),
    ensures
        forall|i: usize, k: int|
            #![trigger m.fourcoeffs@[i]@[k]]
            m.fourcoeffs@.contains_key(i) && 0 <= k < m.fourcoeffs@[i]@.len() ==> i < n
                && m.fourcoeffs@[i]@[k].column < n,
        all_entries(m.rows_below(n)) == all_entries(m.rows()),
{
    lemma_rows_below(m, n);
    assert forall|i: usize, k: int|
        #![trigger m.fourcoeffs@[i]@[k]]
        m.fourcoeffs@.contains_key(i) && 0 <= k < m.fourcoeffs@[i]@.len() implies i < n
        && m.fourcoeffs@[i]@[k].column < n by {
        assert(m.rows()[i as int][k].0 == m.fourcoeffs@[i]@[k].column);
    }
}

/// Runs the sum-check for the products of the matrices with the vector.
#[allow(non_snake_case)]
pub fn parallel_sum_checks<F: PrimeField, T: TranscriptWrite<F>>(
    A: &SparseRep<F>,
    B: &SparseRep<F>,
    C: &SparseRep<F>,
    Z: Vec<F>,
    rx_basis_evals: Vec<F>,
    transcript: &mut T,
) -> (r: Vec<F>)
    requires
        Z@.len() >= 1,
        is_power_of_two(Z@.len()),
        rx_basis_evals@.len() == Z@.len(),
        matrix_fits(*A, Z@.len()),
        matrix_fits(*B, Z@.len()),
        matrix_fits(*C, Z@.len()),
    ensures
        parallel(
            F::modulus(),
            T::oracle(),
            old(transcript).tx(),
            A.rows(),
            B.rows(),
            C.rows(),
            vals(Z@),
            vals(rx_basis_evals@),
        ) == (Layer { tx: final(transcript).tx(), point: vals(r@) }),
        r@.len() == log2_of(Z@.len()),
{
    let ghost n = Z@.len();
    let ghost t0 = transcript.tx();
    let z_len = Z.len();
    proof {
        lemma_dim(A.rows().len(), n);
        lemma_dim(B.rows().len(), n);
        lemma_dim(C.rows().len(), n);
        lemma_entries_below(*A, n);
        lemma_entries_below(*B, n);
        lemma_entries_below(*C, n);
    }
    let a = A.bind_row_variable(&rx_basis_evals, z_len);
    let b = B.bind_row_variable(&rx_basis_evals, z_len);
    let c = C.bind_row_variable(&rx_basis_evals, z_len);
    let rounds = log2(z_len);
    let rc = squeeze_challenges::<F, T>(transcript, 3);
    let ghost rcv = vals(rc@);
    proof {
        lemma_challenges_len(T::oracle(), t0.hist, 3);
        assert(rcv.len() == rc@.len());
    }
    let combiner = WeightedCombiner { rc: [rc[0], rc[1], rc[2]] };
    let ghost ts = seq![vals(a@), vals(b@), vals(c@), vals(Z@)];
    let mut tables: Vec<Vec<F>> = Vec::new();
    tables.push(a);
    tables.push(b);
    tables.push(c);
    tables.push(Z);
    proof {
        assert(seq![combiner.rc@[0].value(), combiner.rc@[1].value(), combiner.rc@[2].value()] =~= rcv);
        assert(vals2(tables@) =~= ts);
        assert(uniform(ts, n));
    }
    let point = sum_check_prove(&mut tables, &combiner, true, rounds, transcript);
    proof {
        lemma_left_over(
            quadratic_shape(F::modulus(), T::oracle()),
            weighted_comb(rcv),
            t0.squeeze_many(3),
            ts,
            n,
            rounds as nat,
        );
        assert forall|i: int| 0 <= i < 4 implies (#[trigger] tables@[i])@.len() >= 1 by {
            assert(vals2(tables@)[i].len() >= 1);
        }
    }
    let mut evals: Vec<F> = Vec::new();
    evals.push(tables[0][0]);
    evals.push(tables[1][0]);
    evals.push(tables[2][0]);
    proof {
        let t = vals2(tables@);
        assert(vals(evals@) =~= seq![t[0][0], t[1][0], t[2][0]]);
    }
    write_field_elements(transcript, &evals);
    point
}

/// The sum-check for the values of the matrices.
pub open spec fn matrix_eval(
    p: int,
    ch: Oracle,
    tx: Tx,
    val: Seq<Seq<int>>,
    e_rx: Seq<Seq<int>>,
    e_ry: Seq<Seq<int>>,
) -> Layer {
    let rc = challenges(ch, tx.hist, 3);
    let r = prove_rounds(
        cubic_shape(p, ch),
        triples_comb(rc),
        tx.squeeze_many(3),
        val + e_rx + e_ry,
        log2_of(val[0].len()),
    );
    Layer {
        tx: r.tx.write_all(
            seq![
                r.tables[3][0],
                r.tables[4][0],
                r.tables[5][0],
                r.tables[6][0],
                r.tables[7][0],
                r.tables[8][0],
                r.tables[0][0],
                r.tables[1][0],
                r.tables[2][0],
            ],
        ),
        point: r.point,
    }
}

/// Runs the sum-check for the values of the matrices.
pub fn matrix_eval_sum_check<F: PrimeField, T: TranscriptWrite<F>>(
    val: Vec<Vec<F>>,
    e_rx: Vec<Vec<F>>,
    e_ry: Vec<Vec<F>>,
    transcript: &mut T,
) -> (r: Vec<F>)
    requires
        val@.len() == 3,
        e_rx@.len() == 3,
        e_ry@.len() == 3,
        val@[0]@.len() >= 1,
        is_power_of_two(val@[0]@.len()),
        uniform(vals2(val@), val@[0]@.len()),
        uniform(vals2(e_rx@), val@[0]@.len()),
        uniform(vals2(e_ry@), val@[0]@.len()),
    ensures
        matrix_eval(
            F::modulus(),
            T::oracle(),
            old(transcript).tx(),
            vals2(val@),
            vals2(e_rx@),
            vals2(e_ry@),
        ) == (Layer { tx: final(transcript).tx(), point: vals(r@) }),
        r@.len() == log2_of(val@[0]@.len()),
{
    let ghost n = val@[0]@.len();
    let ghost t0 = transcript.tx();
    let rounds = log2(val[0].len());
    let rc = squeeze_challenges::<F, T>(transcript, 3);
    let ghost rcv = vals(rc@);
    proof {
        lemma_challenges_len(T::oracle(), t0.hist, 3);
        assert(rcv.len() == rc@.len());
    }
    let combiner = TriplesCombiner { rc: [rc[0], rc[1], rc[2]] };
    let ghost ts = vals2(val@) + vals2(e_rx@) + vals2(e_ry@);
    let mut tables: Vec<Vec<F>> = Vec::new();
    tables.push(copy_elements(&val[0]));
    tables.push(copy_elements(&val[1]));
    tables.push(copy_elements(&val[2]));
    tables.push(copy_elements(&e_rx[0]));
    tables.push(copy_elements(&e_rx[1]));
    tables.push(copy_elements(&e_rx[2]));
    tables.push(copy_elements(&e_ry[0]));
    tables.push(copy_elements(&e_ry[1]));
    tables.push(copy_elements(&e_ry[2]));
    proof {
        assert(seq![combiner.rc@[0].value(), combiner.rc@[1].value(), combiner.rc@[2].value()] =~= rcv);
        assert(vals2(tables@) =~= ts);
        assert forall|i: int| 0 <= i < 9 implies (#[trigger] ts[i]).len() == n by {
            if i < 3 {
                assert(ts[i] == vals2(val@)[i]);
            } else if i < 6 {
                assert(ts[i] == vals2(e_rx@)[i - 3]);
            } else {
                assert(ts[i] == vals2(e_ry@)[i - 6]);
            }
        }
        assert(tables@[0]@.len() == ts[0].len());
    }
    let point = sum_check_prove(&mut tables, &combiner, true, rounds, transcript);
    proof {
        lemma_left_over(
            cubic_shape(F::modulus(), T::oracle()),
            triples_comb(rcv),
            t0.squeeze_many(3),
            ts,
            n,
            rounds as nat,
        );
        assert forall|i: int| 0 <= i < 9 implies (#[trigger] tables@[i])@.len() >= 1 by {
            assert(vals2(tables@)[i].len() >= 1);
        }
    }
    let mut evals: Vec<F> = Vec::new();
    evals.push(tables[3][0]);
    evals.push(tables[4][0]);
    evals.push(tables[5][0]);
    evals.push(tables[6][0]);
    evals.push(tables[7][0]);
    evals.push(tables[8][0]);
    evals.push(tables[0][0]);
    evals.push(tables[1][0]);
    evals.push(tables[2][0]);
    proof {
        let t = vals2(tables@);
        assert(vals(evals@) =~= seq![
            t[3][0],
            t[4][0],
            t[5][0],
            t[6][0],
            t[7][0],
            t[8][0],
            t[0][0],
            t[1][0],
            t[2][0],
        ]);
    }
    write_field_elements(transcript, &evals);
    point
}

/// What a sum-check leaves: its point, and the values that were sent.
pub struct Checked {
    pub check: Check,
    pub point: Seq<int>,
    pub evals: Seq<int>,
}

/// Checks the sum-check for the constraints.
pub open spec fn check_initial(p: int, ch: Oracle, check: Check, rounds: nat, u: int) -> Checked {
    let (c1, tau) = check.squeeze_many(ch, rounds);
    let r = check_rounds(cubic_shape(p, ch), c1, 0, rounds);
    let (c2, e) = r.check.read_many(4);
    let c3 = c2.require(
        cong(p, r.claim, eq_points(tau, r.point) * (e[0] * e[1] - (u * e[2] + e[3]))),
        Error::SumCheckEvaluation,
    );
    Checked { check: c3, point: r.point, evals: e }
}

/// Checks the sum-check for the constraints, and gives the values that were sent and its point.
pub fn initial_sum_check_verification<F: PrimeField, T: TranscriptRead<F>>(
    num_const: usize,
    u: F,
    transcript: &mut T,
) -> (res: Result<(Vec<F>, Vec<F>), Error>)
    requires
        num_const >= 1,
        is_power_of_two(num_const as nat),
    ensures
        ({
            let s = check_initial(
                F::modulus(),
                T::oracle(),
                checking(old(transcript).rx()),
                log2_of(num_const as nat),
                u.value(),
            );
            &&& final(transcript).rx() == s.check.rx
            &&& outcome(res, s.check.err)
            &&& res matches Ok(d) ==> {
                &&& vals(d.0@) == s.evals
                &&& vals(d.1@) == s.point
                &&& d.0@.len() == 4
                &&& d.1@.len() == log2_of(num_const as nat)
            }
        }),
{
    let ghost p = F::modulus();
    let ghost ch = T::oracle();
    let ghost check = checking(transcript.rx());
    let rounds = log2(num_const);
    let tau = read_challenges::<F, T>(transcript, rounds);
    let ghost (c1, tv) = check.squeeze_many(ch, rounds as nat);
    proof {
        F::lemma_modulus();
        lemma_squeeze_many_rx(check, ch, rounds as nat);
        lemma_challenges_len(ch, check.rx.hist, rounds as nat);
        assert(vals(tau@).len() == tau@.len());
    }
    let ghost r = check_rounds(cubic_shape(p, ch), c1, 0, rounds as nat);
    let (last, point) = match sum_check_verify::<F, T>(F::zero(), 3, true, rounds, transcript) {
        Ok(d) => d,
        Err(e) => {
            proof {
                lemma_failed(r.check, ch, 4);
            }
            return Err(e);
        },
    };
    let eval = match read_field_elements::<F, T>(transcript, 4) {
        Ok(e) => e,
        Err(e) => {
            return Err(e);
        },
    };
    proof {
        lemma_read_many_len(r.check, 4);
        assert(vals(eval@).len() == eval@.len());
    }
    let ghost e = vals(eval@);
    let q = evaluate_eq(&tau, &point);
    let ab = eval[0].mul(eval[1]);
    let uc = u.mul(eval[2]);
    let rest = uc.add(eval[3]);
    let d = ab.sub(rest);
    let expected = q.mul(d);
    proof {
        let uv = u.value();
        let q0 = eq_points(tv, r.point);
        lemma_cong_mod(p, q0);
        lemma_cong_mod(p, e[0] * e[1]);
        lemma_cong_mod(p, uv * e[2]);
        lemma_cong_add(p, uc.value(), uv * e[2], e[3], e[3]);
        lemma_cong_mod(p, uc.value() + e[3]);
        lemma_cong_sub(p, ab.value(), e[0] * e[1], rest.value(), uv * e[2] + e[3]);
        lemma_cong_mod(p, ab.value() - rest.value());
        let x = e[0] * e[1] - (uv * e[2] + e[3]);
        lemma_cong_mul(p, q.value(), q0, d.value(), x);
        lemma_cong_mod(p, q.value() * d.value());
        last.lemma_value();
        expected.lemma_value();
        lemma_equal_iff_cong(p, last.value(), expected.value(), q0 * x);
    }
    if !last.equals(expected) {
        return Err(Error::SumCheckEvaluation);
    }
    Ok((eval, point))
}

/// The value of the public input at a point.
pub open spec fn pi_value(indices: Seq<int>, pi: Seq<int>, y: Seq<int>) -> int {
    sum_of(pi.len(), |j: int| pi[j] * eq_prod(indices[j], y))
}

/// The value of the public input at a point.
#[allow(non_snake_case)]
pub fn evaluate_PI<F: PrimeField>(
    pi_indices: &Vec<usize>,
    PI: &MultilinearPolynomial<F>,
    point: &Vec<F>,
) -> (r: F)
    requires
        pi_indices@.len() >= PI.evals@.len(),
    ensures
        r.value() == pi_value(index_values(pi_indices@), vals(PI.evals@), vals(point@)) % F::modulus(),
{
    let ghost p = F::modulus();
    let ghost f = |j: int| vals(PI.evals@)[j] * eq_prod(index_values(pi_indices@)[j], vals(point@));
    proof {
        F::lemma_modulus();
        lemma_sum_step(0, f);
        lemma_mod_small(p, 0);
    }
    let mut eval = F::zero();
    let mut j: usize = 0;
    while j < PI.evals.len()
        invariant
            j <= PI.evals@.len(),
            pi_indices@.len() >= PI.evals@.len(),
            p == F::modulus(),
            p > 0,
            f == (|j: int|
                vals(PI.evals@)[j] * eq_prod(index_values(pi_indices@)[j], vals(point@))),
            eval.value() == sum_of(j as nat, f) % p,
        decreases PI.evals@.len() - j,
    {
        let b = eq(pi_indices[j], point);
        let term = PI.evals[j].mul(b);
        proof {
            let full = eq_prod(index_values(pi_indices@)[j as int], vals(point@));
            let x = PI.evals@[j as int].value();
            lemma_cong_mod(p, full);
            lemma_cong_mod(p, x * b.value());
            lemma_cong_mul(p, x, x, b.value(), full);
            lemma_accumulate(p, j as nat, f, eval.value(), term.value());
        }
        eval = eval.add(term);
        j += 1;
    }
    eval
}

/// What the second sum-check leaves.
pub struct ParallelChecked {
    pub check: Check,
    pub point: Seq<int>,
    pub evals: Seq<int>,
    pub w: int,
}

/// Three values, weighed.
pub open spec fn weighed_three(rc: Seq<int>, v: Seq<int>) -> int {
    rc[0] * v[0] + rc[1] * v[1] + rc[2] * v[2]
}

/// Checks the sum-check for the products of the matrices with the vector.
pub open spec fn check_parallel(
    p: int,
    ch: Oracle,
    check: Check,
    rounds: nat,
    indices: Seq<int>,
    pi: Seq<int>,
    rc: Seq<int>,
    claim: int,
) -> ParallelChecked {
    let r = check_rounds(quadratic_shape(p, ch), check, claim, rounds);
    let (c1, e) = r.check.read_many(3);
    let (c2, w) = c1.read();
    let c3 = c2.require(
        cong(p, r.claim, (pi_value(indices, pi, r.point) + w) * weighed_three(rc, e)),
        Error::SumCheckEvaluation,
    );
    ParallelChecked { check: c3, point: r.point, evals: e, w }
}

/// Three values, weighed.
pub fn weigh_values<F: PrimeField>(rc: &Vec<F>, v: &Vec<F>) -> (r: F)
    requires
        rc@.len() >= 3,
        v@.len() >= 3,
    ensures
        r.value() == weighed_three(vals(rc@), vals(v@)) % F::modulus(),
{
    let a = rc[0].mul(v[0]);
    let b = rc[1].mul(v[1]);
    let c = rc[2].mul(v[2]);
    let ab = a.add(b);
    proof {
        lemma_three_terms::<F>(
            a,
            b,
            c,
            ab,
            rc@[0].value() * v@[0].value(),
            rc@[1].value() * v@[1].value(),
            rc@[2].value() * v@[2].value(),
        );
    }
    ab.add(c)
}

/// Checks the sum-check for the products of the matrices with the vector, and gives its point, the
/// values of the matrices and that of the witness.
#[allow(non_snake_case)]
pub fn par_sum_check_verification<F: PrimeField, T: TranscriptRead<F>>(
    num_const: usize,
    pi_indices: &Vec<usize>,
    PI: &MultilinearPolynomial<F>,
    random_coeffs: &Vec<F>,
    initial_evaluation: F,
    transcript: &mut T,
) -> (res: Result<(Vec<F>, Vec<F>, F), Error>)
    requires
        num_const >= 1,
        is_power_of_two(num_const as nat),
        pi_indices@.len() >= PI.evals@.len(),
        random_coeffs@.len() >= 3,
    ensures
        ({
            let s = check_parallel(
                F::modulus(),
                T::oracle(),
                checking(old(transcript).rx()),
                log2_of(num_const as nat),
                index_values(pi_indices@),
                vals(PI.evals@),
                vals(random_coeffs@),
                initial_evaluation.value(),
            );
            &&& final(transcript).rx() == s.check.rx
            &&& outcome(res, s.check.err)
            &&& res matches Ok(d) ==> {
                &&& vals(d.0@) == s.point
                &&& vals(d.1@) == s.evals
                &&& d.2.value() == s.w
                &&& d.0@.len() == log2_of(num_const as nat)
                &&& d.1@.len() == 3
            }
        }),
{
    let ghost p = F::modulus();
    let ghost ch = T::oracle();
    let ghost check = checking(transcript.rx());
    let ghost rc = vals(random_coeffs@);
    let rounds = log2(num_const);
    let ghost r = check_rounds(
        quadratic_shape(p, ch),
        check,
        initial_evaluation.value(),
        rounds as nat,
    );
    proof {
        F::lemma_modulus();
    }
    let (last, point) = match sum_check_verify::<F, T>(
        initial_evaluation,
        2,
        true,
        rounds,
        transcript,
    ) {
        Ok(d) => d,
        Err(e) => {
            proof {
                lemma_failed(r.check, ch, 3);
            }
            return Err(e);
        },
    };
    let ghost (c1, e0) = r.check.read_many(3);
    let a_b_c_evals = match read_field_elements::<F, T>(transcript, 3) {
        Ok(e) => e,
        Err(e) => {
            proof {
                lemma_failed(c1, ch, 3);
            }
            return Err(e);
        },
    };
    proof {
        lemma_read_many_len(r.check, 3);
        assert(vals(a_b_c_evals@).len() == a_b_c_evals@.len());
    }
    let pi_eval = evaluate_PI(pi_indices, PI, &point);
    let w_eval = match transcript.read_field_element() {
        Ok(e) => e,
        Err(e) => {
            return Err(e);
        },
    };
    let z_eval = pi_eval.add(w_eval);
    let weighed = weigh_values(random_coeffs, &a_b_c_evals);
    let expected = z_eval.mul(weighed);
    proof {
        let x = pi_value(index_values(pi_indices@), vals(PI.evals@), r.point);
        let w = w_eval.value();
        let y = weighed_three(rc, e0);
        lemma_cong_mod(p, x);
        lemma_cong_add(p, pi_eval.value(), x, w, w);
        lemma_cong_mod(p, pi_eval.value() + w);
        lemma_cong_mod(p, y);
        lemma_cong_mul(p, z_eval.value(), x + w, weighed.value(), y);
        lemma_cong_mod(p, z_eval.value() * weighed.value());
        last.lemma_value();
        expected.lemma_value();
        lemma_equal_iff_cong(p, last.value(), expected.value(), (x + w) * y);
    }
    if !last.equals(expected) {
        return Err(Error::SumCheckEvaluation);
    }
    Ok((point, a_b_c_evals, w_eval))
}

/// Three products of three values, weighed.
pub open spec fn weighed_products(rc: Seq<int>, e: Seq<int>) -> int {
    rc[0] * (e[0] * e[3] * e[6]) + rc[1] * (e[1] * e[4] * e[7]) + rc[2] * (e[2] * e[5] * e[8])
}

/// Checks the sum-check for the values of the matrices.
pub open spec fn check_matrix(
    p: int,
    ch: Oracle,
    check: Check,
    rounds: nat,
    claim: int,
    rc: Seq<int>,
) -> Checked {
    let r = check_rounds(cubic_shape(p, ch), check, claim, rounds);
    let (c1, e) = r.check.read_many(9);
    let c2 = c1.require(cong(p, r.claim, weighed_products(rc, e)), Error::SumCheckEvaluation);
    Checked { check: c2, point: r.point, evals: e }
}

/// Checks the sum-check for the values of the matrices, and gives its point, and the values for the
/// rows, the columns and the entries.
pub fn matrix_eval_sum_check_verifier<F: PrimeField, T: TranscriptRead<F>>(
    num_const: usize,
    sparsity: usize,
    initial_evaluation: F,
    random_coeffs: Vec<F>,
    transcript: &mut T,
) -> (res: Result<(Vec<F>, Vec<F>, Vec<F>, Vec<F>), Error>)
    requires
        1 <= num_const * sparsity <= u32::MAX,
        is_power_of_two((num_const * sparsity) as nat),
        random_coeffs@.len() >= 3,
    ensures
        ({
            let s = check_matrix(
                F::modulus(),
                T::oracle(),
                checking(old(transcript).rx()),
                log2_of((num_const * sparsity) as nat),
                initial_evaluation.value(),
                vals(random_coeffs@),
            );
            &&& final(transcript).rx() == s.check.rx
            &&& outcome(res, s.check.err)
            &&& res matches Ok(d) ==> {
                &&& vals(d.0@) == s.point
                &&& vals(d.1@) + vals(d.2@) + vals(d.3@) == s.evals
                &&& d.0@.len() == log2_of((num_const * sparsity) as nat)
                &&& d.1@.len() == 3
                &&& d.2@.len() == 3
                &&& d.3@.len() == 3
            }
        }),
{
    let ghost p = F::modulus();
    let ghost ch = T::oracle();
    let ghost check = checking(transcript.rx());
    let ghost rc = vals(random_coeffs@);
    let rounds = log2(num_const * sparsity);
    let ghost r = check_rounds(
        cubic_shape(p, ch),
        check,
        initial_evaluation.value(),
        rounds as nat,
    );
    proof {
        F::lemma_modulus();
    }
    let (last, point) = match sum_check_verify::<F, T>(
        initial_evaluation,
        3,
        true,
        rounds,
        transcript,
    ) {
        Ok(d) => d,
        Err(e) => {
            proof {
                lemma_failed(r.check, ch, 9);
            }
            return Err(e);
        },
    };
    let e = match read_field_elements::<F, T>(transcript, 9) {
        Ok(e) => e,
        Err(e) => {
            return Err(e);
        },
    };
    proof {
        lemma_read_many_len(r.check, 9);
        assert(vals(e@).len() == e@.len());
    }
    let a = term3(random_coeffs[0], e[0], e[3], e[6]);
    let b = term3(random_coeffs[1], e[1], e[4], e[7]);
    let c = term3(random_coeffs[2], e[2], e[5], e[8]);
    let ab = a.add(b);
    let expected = ab.add(c);
    proof {
        let v = vals(e@);
        lemma_three_terms::<F>(
            a,
            b,
            c,
            ab,
            rc[0] * (v[0] * v[3] * v[6]),
            rc[1] * (v[1] * v[4] * v[7]),
            rc[2] * (v[2] * v[5] * v[8]),
        );
        lemma_cong_mod(p, weighed_products(rc, v));
        last.lemma_value();
        expected.lemma_value();
        lemma_equal_iff_cong(p, last.value(), expected.value(), weighed_products(rc, v));
    }
    if !last.equals(expected) {
        return Err(Error::SumCheckEvaluation);
    }
    let e_rx = crate::brakingbase_helper::sub_vector(&e, 0, 3);
    let e_ry = crate::brakingbase_helper::sub_vector(&e, 3, 6);
    let val = crate::brakingbase_helper::sub_vector(&e, 6, 9);
    assert(vals(e_rx@) + vals(e_ry@) + vals(val@) =~= vals(e@));
    Ok((point, e_rx, e_ry, val))
}

/// A point with its first coordinates once more in front, in reverse.
pub open spec fn extended(y: Seq<int>, n: nat) -> Seq<int> {
    y.take(n as int).reverse() + y
}

/// A point with its first coordinates once more in front, in reverse.
pub fn extend_point<F: PrimeField>(y: &Vec<F>, n: usize) -> (r: Vec<F>)
    requires
        n <= y@.len(),
    ensures
        vals(r@) == extended(vals(y@), n as nat),
        r@.len() == y@.len() + n,
{
    let front = crate::brakingbase_helper::sub_vector(y, 0, n);
    let back = crate::gkr::helper::reverse_elements(&front);
    let r = crate::brakingbase::joined(&back, y);
    proof {
        crate::gkr::helper::lemma_vals_reverse(front@);
        assert(vals(front@) =~= vals(y@).take(n as int));
    }
    r
}

/// Lengthens the points of the short tables to the length of the others.
pub fn extend_if_required<F: PrimeField>(rx: &mut Vec<Vec<F>>)
    requires
        old(rx)@.len() == 5,
        old(rx)@[1]@.len() == old(rx)@[0]@.len(),
        old(rx)@[4]@.len() == old(rx)@[0]@.len(),
        old(rx)@[0]@.len() <= old(rx)@[2]@.len() <= 2 * old(rx)@[0]@.len(),
    ensures
        vals2(final(rx)@) == extended_points(vals2(old(rx)@)),
        final(rx)@.len() == 5,
{
    let diff = rx[2].len() - rx[0].len();
    let ghost before = vals2(rx@);
    if diff != 0 {
        let a = extend_point(&rx[0], diff);
        let b = extend_point(&rx[1], diff);
        let c = extend_point(&rx[4], diff);
        rx.set(0, a);
        rx.set(1, b);
        rx.set(4, c);
        assert(vals2(rx@) =~= extended_points(before));
    } else {
        proof {
            lemma_extended_none(before[0]);
            lemma_extended_none(before[1]);
            lemma_extended_none(before[4]);
            assert(before =~= extended_points(before));
        }
    }
}

/// Nothing is put in front.
proof fn lemma_extended_none(y: Seq<int>)
    ensures
        extended(y, 0) == y,
{
    assert(extended(y, 0) =~= y);
}

/// The points, those of the short tables lengthened.
pub open spec fn extended_points(y: Seq<Seq<int>>) -> Seq<Seq<int>> {
    let n = (y[2].len() - y[0].len()) as nat;
    seq![extended(y[0], n), extended(y[1], n), y[2], y[3], extended(y[4], n)]
}

/// Three of the values from `3 * g` on, weighed by those from `k` on.
pub open spec fn group(c: Seq<int>, k: int, e: Seq<int>, g: int) -> int {
    c[k] * e[3 * g] + c[k + 1] * e[3 * g + 1] + c[k + 2] * e[3 * g + 2]
}

/// What the values give for the last claim. The values are those of the rows, the columns, the times
/// of their reads, the values read for rows and for columns, the times that are left for rows and for
/// columns, and the entries, for each matrix, and those of the error and of the witness.
pub open spec fn batched_expected(c: Seq<int>, e: Seq<int>, q: Seq<int>) -> int {
    let second = group(c, 2, e, 4) + group(c, 5, e, 5) + group(c, 8, e, 8);
    let third = group(c, 11, e, 4) + group(c, 14, e, 5) + group(c, 17, e, 0) + group(c, 20, e, 1) + group(
        c,
        23,
        e,
        2,
    ) + group(c, 26, e, 3);
    let fourth = group(c, 29, e, 6) + group(c, 32, e, 7);
    (c[0] * e[27]) * q[0] + (c[1] * e[28]) * q[1] + second * q[2] + third * q[3] + fourth * q[4]
}

/// The values of the basis polynomials of one point at another.
pub open spec fn eq_all(y: Seq<Seq<int>>, z: Seq<int>) -> Seq<int> {
    Seq::new(y.len(), |i: int| eq_points(y[i], z))
}

/// Checks the sum-check that turns all claims into claims at one point.
pub open spec fn check_batched(
    p: int,
    ch: Oracle,
    check: Check,
    y: Seq<Seq<int>>,
    claim: int,
    c: Seq<int>,
) -> Checked {
    let s = check_rounds(batch_shape(p, ch), check, claim, y[2].len());
    let (c1, v) = s.check.read_many(30);
    let e = v.skip(1);
    let c2 = c1.require(
        cong(p, s.claim, batched_expected(c, e, eq_all(extended_points(y), s.point))),
        Error::SumCheckEvaluation,
    );
    Checked { check: c2, point: s.point, evals: e }
}

/// Three of the values, weighed.
fn weigh_group<F: PrimeField>(c: &Vec<F>, k: usize, e: &Vec<F>, g: usize) -> (r: F)
    requires
        k + 3 <= c@.len(),
        3 * g + 3 <= e@.len(),
    ensures
        r.value() == group(vals(c@), k as int, vals(e@), g as int) % F::modulus(),
{
    let n = c.len();
    let m = e.len();
    assert(k + 3 <= n);
    assert(3 * g + 3 <= m);
    let x = c[k].mul(e[3 * g]);
    let y = c[k + 1].mul(e[3 * g + 1]);
    let z = c[k + 2].mul(e[3 * g + 2]);
    let xy = x.add(y);
    proof {
        let (cv, ev) = (vals(c@), vals(e@));
        let (k, g) = (k as int, g as int);
        lemma_three_terms::<F>(
            x,
            y,
            z,
            xy,
            cv[k] * ev[3 * g],
            cv[k + 1] * ev[3 * g + 1],
            cv[k + 2] * ev[3 * g + 2],
        );
    }
    xy.add(z)
}

/// The sum of two elements that are congruent to the given values.
fn add_known<F: PrimeField>(a: F, b: F, Ghost(x): Ghost<int>, Ghost(y): Ghost<int>) -> (r: F)
    requires
        cong(F::modulus(), a.value(), x),
        cong(F::modulus(), b.value(), y),
    ensures
        cong(F::modulus(), r.value(), x + y),
{
    proof {
        F::lemma_modulus();
        lemma_cong_add(F::modulus(), a.value(), x, b.value(), y);
        lemma_cong_mod(F::modulus(), a.value() + b.value());
    }
    a.add(b)
}

/// The product of two elements that are congruent to the given values.
fn multiply_known<F: PrimeField>(a: F, b: F, Ghost(x): Ghost<int>, Ghost(y): Ghost<int>) -> (r: F)
    requires
        cong(F::modulus(), a.value(), x),
        cong(F::modulus(), b.value(), y),
    ensures
        cong(F::modulus(), r.value(), x * y),
{
    proof {
        F::lemma_modulus();
        lemma_cong_mul(F::modulus(), a.value(), x, b.value(), y);
        lemma_cong_mod(F::modulus(), a.value() * b.value());
    }
    a.mul(b)
}

/// Three of the values, weighed, as a congruence.
fn group_known<F: PrimeField>(c: &Vec<F>, k: usize, e: &Vec<F>, g: usize) -> (r: F)
    requires
        k + 3 <= c@.len(),
        3 * g + 3 <= e@.len(),
    ensures
        cong(F::modulus(), r.value(), group(vals(c@), k as int, vals(e@), g as int)),
{
    let r = weigh_group(c, k, e, g);
    proof {
        F::lemma_modulus();
        lemma_cong_mod(F::modulus(), group(vals(c@), k as int, vals(e@), g as int));
    }
    r
}

/// What the values give for the last claim.
fn expected_claim<F: PrimeField>(c: &Vec<F>, e: &Vec<F>, q: &Vec<F>, Ghost(qs): Ghost<Seq<int>>) -> (r: F)
    requires
        c@.len() == 35,
        e@.len() == 29,
        q@.len() == 5,
        qs.len() == 5,
        forall|i: int| 0 <= i < 5 ==> cong(F::modulus(), (#[trigger] q@[i]).value(), qs[i]),
    ensures
        cong(F::modulus(), r.value(), batched_expected(vals(c@), vals(e@), qs)),
{
    let ghost cv = vals(c@);
    let ghost ev = vals(e@);
    let ghost g = |k: int, j: int| group(cv, k, ev, j);
    let s1 = add_known(group_known(c, 2, e, 4), group_known(c, 5, e, 5), Ghost(g(2, 4)), Ghost(g(5, 5)));
    let second = add_known(s1, group_known(c, 8, e, 8), Ghost(g(2, 4) + g(5, 5)), Ghost(g(8, 8)));
    let t1 = add_known(
        group_known(c, 11, e, 4),
        group_known(c, 14, e, 5),
        Ghost(g(11, 4)),
        Ghost(g(14, 5)),
    );
    let t2 = add_known(t1, group_known(c, 17, e, 0), Ghost(g(11, 4) + g(14, 5)), Ghost(g(17, 0)));
    let t3 = add_known(
        t2,
        group_known(c, 20, e, 1),
        Ghost(g(11, 4) + g(14, 5) + g(17, 0)),
        Ghost(g(20, 1)),
    );
    let t4 = add_known(
        t3,
        group_known(c, 23, e, 2),
        Ghost(g(11, 4) + g(14, 5) + g(17, 0) + g(20, 1)),
        Ghost(g(23, 2)),
    );
    let third = add_known(
        t4,
        group_known(c, 26, e, 3),
        Ghost(g(11, 4) + g(14, 5) + g(17, 0) + g(20, 1) + g(23, 2)),
        Ghost(g(26, 3)),
    );
    let fourth = add_known(
        group_known(c, 29, e, 6),
        group_known(c, 32, e, 7),
        Ghost(g(29, 6)),
        Ghost(g(32, 7)),
    );
    let ghost x2 = g(2, 4) + g(5, 5) + g(8, 8);
    let ghost x3 = g(11, 4) + g(14, 5) + g(17, 0) + g(20, 1) + g(23, 2) + g(26, 3);
    let ghost x4 = g(29, 6) + g(32, 7);
    let a0 = multiply_known(c[0], e[27], Ghost(cv[0]), Ghost(ev[27]));
    let a1 = multiply_known(c[1], e[28], Ghost(cv[1]), Ghost(ev[28]));
    let m0 = multiply_known(a0, q[0], Ghost(cv[0] * ev[27]), Ghost(qs[0]));
    let m1 = multiply_known(a1, q[1], Ghost(cv[1] * ev[28]), Ghost(qs[1]));
    let m2 = multiply_known(second, q[2], Ghost(x2), Ghost(qs[2]));
    let m3 = multiply_known(third, q[3], Ghost(x3), Ghost(qs[3]));
    let m4 = multiply_known(fourth, q[4], Ghost(x4), Ghost(qs[4]));
    let ghost y0 = (cv[0] * ev[27]) * qs[0];
    let ghost y1 = (cv[1] * ev[28]) * qs[1];
    let n1 = add_known(m0, m1, Ghost(y0), Ghost(y1));
    let n2 = add_known(n1, m2, Ghost(y0 + y1), Ghost(x2 * qs[2]));
    let n3 = add_known(n2, m3, Ghost(y0 + y1 + x2 * qs[2]), Ghost(x3 * qs[3]));
    add_known(n3, m4, Ghost(y0 + y1 + x2 * qs[2] + x3 * qs[3]), Ghost(x4 * qs[4]))
}

/// Checks the sum-check that turns all claims into claims at one point, and gives the values there
/// and the point.
pub fn batch_sum_check_verifier<F: PrimeField, T: TranscriptRead<F>>(
    r_x: Vec<Vec<F>>,
    claimed_eval: F,
    transcript: &mut T,
    batch_sc_rc: &Vec<F>,
) -> (res: Result<(Vec<F>, Vec<F>), Error>)
    requires
        r_x@.len() == 5,
        r_x@[1]@.len() == r_x@[0]@.len(),
        r_x@[4]@.len() == r_x@[0]@.len(),
        r_x@[3]@.len() == r_x@[2]@.len(),
        r_x@[0]@.len() <= r_x@[2]@.len() <= 2 * r_x@[0]@.len(),
        batch_sc_rc@.len() == 35,
    ensures
        ({
            let s = check_batched(
                F::modulus(),
                T::oracle(),
                checking(old(transcript).rx()),
                vals2(r_x@),
                claimed_eval.value(),
                vals(batch_sc_rc@),
            );
            &&& final(transcript).rx() == s.check.rx
            &&& outcome(res, s.check.err)
            &&& res matches Ok(d) ==> {
                &&& vals(d.0@) == s.evals
                &&& vals(d.1@) == s.point
                &&& d.0@.len() == 29
                &&& d.1@.len() == r_x@[2]@.len()
            }
        }),
{
    let ghost p = F::modulus();
    let ghost ch = T::oracle();
    let ghost check = checking(transcript.rx());
    let ghost y = vals2(r_x@);
    let rounds = r_x[2].len();
    let ghost s = check_rounds(batch_shape(p, ch), check, claimed_eval.value(), rounds as nat);
    proof {
        F::lemma_modulus();
        assert(y[2].len() == rounds);
    }
    let (last, r_y) = match sum_check_verify::<F, T>(claimed_eval, 2, false, rounds, transcript) {
        Ok(d) => d,
        Err(e) => {
            proof {
                lemma_failed(s.check, ch, 30);
            }
            return Err(e);
        },
    };
    let v = match read_field_elements::<F, T>(transcript, 30) {
        Ok(e) => e,
        Err(e) => {
            return Err(e);
        },
    };
    proof {
        lemma_read_many_len(s.check, 30);
        assert(vals(v@).len() == v@.len());
    }
    let evals = crate::brakingbase_helper::sub_vector(&v, 1, 30);
    assert(vals(evals@) =~= vals(v@).skip(1));
    let mut points = r_x;
    extend_if_required(&mut points);
    let ghost ys = extended_points(y);
    let ghost qs = eq_all(ys, s.point);
    let mut q: Vec<F> = Vec::new();
    let mut i: usize = 0;
    assert(forall|k: int| 0 <= k < 5 ==> (#[trigger] ys[k]).len() == rounds) by {
        assert forall|k: int| 0 <= k < 5 implies (#[trigger] ys[k]).len() == rounds by {
            assert(k == 0 || k == 1 || k == 2 || k == 3 || k == 4);
        }
    }
    while i < 5
        invariant
            i <= 5,
            p == F::modulus(),
            p > 0,
            points@.len() == 5,
            vals2(points@) == ys,
            ys.len() == 5,
            forall|k: int| 0 <= k < 5 ==> (#[trigger] ys[k]).len() == rounds,
            r_y@.len() == rounds,
            vals(r_y@) == s.point,
            qs == eq_all(ys, s.point),
            q@.len() == i,
            forall|k: int| 0 <= k < i ==> cong(p, (#[trigger] q@[k]).value(), qs[k]),
        decreases 5 - i,
    {
        proof {
            assert(ys[i as int] == vals(points@[i as int]@));
            assert(ys[i as int].len() == rounds);
            lemma_cong_mod(p, qs[i as int]);
        }
        q.push(evaluate_eq(&points[i], &r_y));
        i += 1;
    }
    let expected = expected_claim(batch_sc_rc, &evals, &q, Ghost(qs));
    proof {
        last.lemma_value();
        expected.lemma_value();
        lemma_equal_iff_cong(
            p,
            last.value(),
            expected.value(),
            batched_expected(vals(batch_sc_rc@), vals(evals@), qs),
        );
    }
    if !last.equals(expected) {
        return Err(Error::SumCheckEvaluation);
    }
    Ok((evals, r_y))
}

} // verus!
