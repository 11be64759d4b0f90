//! Proving and checking that a constraint system is satisfied.
use vstd::prelude::*;
use crate::algebra::{
    cong, cong_seq, lemma_cong_add, lemma_cong_mod, lemma_two_to_add, lemma_two_to_monotone,
    lemma_two_to_positive, two_to,
};
use crate::bits::{is_power_of_two, lemma_log2_two_to, lemma_two_to_word, log2, log2_of};
use crate::brakingbase::{
    Brakingbase, BrakingbaseCommitment, BrakingbaseProverParams, BrakingbaseSpec,
    BrakingbaseVerifierParams, Scheme, joined,
};
use crate::brakingbase_helper::{evaluate_eq, inner_product, sub_vector};
use crate::brakingbase_open::basis_table;
use crate::brakingbase_verify::{lemma_equal_iff_cong, lemma_failed, product_of_four};
use crate::code::index_values;
use crate::error::{Error, outcome};
use crate::field::{PrimeField, copy_elements, vals, vals2};
use crate::gkr::gkr::{gkr_check, gkr_verifier, lemma_gkr_check_from_failed};
use crate::gkr::helper::{
    evaluate_indicies, fingerprint_base, fingerprint_time, lemma_vals_reverse, reverse_elements,
    weighted_bits,
};
use crate::hash::{HashFunction, Output};
use crate::multilinear::{basis, eq_points, mle, tensor};
use crate::poly::MultilinearPolynomial;
use crate::rounds::lemma_check_rounds_failed;
use crate::snark::batcheval::{
    batch_eval, batch_eval_proof, metas, metas_sized, reads_balance, reads_drawn, tables_of,
};
use crate::snark::helper::{Meta, SparseMetaData, SparseRep, eR1CSmetadata};
use crate::snark::sum_check::{
    Checked, batch_sum_check_verifier, check_batched, check_initial, check_matrix, check_parallel,
    first_layer, first_layer_sum_check, initial_sum_check_verification,
    matrix_eval_sum_check_verifier, matrix_fits, par_sum_check_verification, parallel,
    parallel_sum_checks, weigh_values, weighed_three,
};
use crate::sum_checks::{batch_shape, cubic_shape, quadratic_shape};
use crate::sums::{dot, lemma_dot_cong};
use crate::transcript::{
    Check, Oracle, TranscriptRead, TranscriptWrite, Tx, checking, lemma_challenges_len,
    lemma_read_commitments_len, lemma_read_many_len, lemma_squeeze_many_rx, read_challenges,
    read_commitments, read_field_elements,
};

verus! {

/// The descriptions of the three matrices.
pub open spec fn three_metas<F: PrimeField>(m: eR1CSmetadata<F>) -> Seq<Meta> {
    seq![m.A.meta(), m.B.meta(), m.C.meta()]
}

/// Proves that the constraints hold.
pub open spec fn sat_tx<F: PrimeField, H: HashFunction>(
    p: int,
    ch: Oracle,
    s: Scheme,
    tx: Tx,
    a: Seq<Seq<(int, int)>>,
    b: Seq<Seq<(int, int)>>,
    c: Seq<Seq<(int, int)>>,
    u: int,
    z: Seq<int>,
    e: Seq<int>,
    wit: Seq<int>,
    m: Seq<Meta>,
    l: nat,
) -> Tx {
    let f = first_layer(p, ch, tx, a, b, c, u, z, e);
    let g = parallel(p, ch, f.tx, a, b, c, z, tensor(p, f.point));
    let t = g.tx.write(mle(p, wit, g.point));
    batch_eval::<F, H>(p, ch, s, t, m, f.point, g.point, basis(p, f.point), e, wit, l)
}

/// The times of the reads balance for the challenges that are drawn in a proof that the constraints
/// hold.
pub open spec fn sat_balanced<F: PrimeField, H: HashFunction>(
    p: int,
    ch: Oracle,
    s: Scheme,
    tx: Tx,
    a: Seq<Seq<(int, int)>>,
    b: Seq<Seq<(int, int)>>,
    c: Seq<Seq<(int, int)>>,
    u: int,
    z: Seq<int>,
    e: Seq<int>,
    wit: Seq<int>,
    m: Seq<Meta>,
    l: nat,
) -> bool {
    let f = first_layer(p, ch, tx, a, b, c, u, z, e);
    let g = parallel(p, ch, f.tx, a, b, c, z, tensor(p, f.point));
    let r = g.tx.write(mle(p, wit, g.point));
    let (w, v) = (basis(p, f.point), basis(p, g.point));
    let t = tables_of(m, w, v);
    reads_balance(p, t, w, v, reads_drawn::<F, H>(p, ch, s, r, t), f.point.len(), l)
}

/// Proves that the constraints hold for the vector `z`, which is the witness `W` with the public
/// input added.
#[allow(non_snake_case, unused_variables)]
pub fn prove_sat<F: PrimeField, H: HashFunction, S: BrakingbaseSpec, T: TranscriptWrite<F>>(
    A: &SparseRep<F>,
    B: &SparseRep<F>,
    C: &SparseRep<F>,
    u: &F,
    z: &MultilinearPolynomial<F>,
    E: &MultilinearPolynomial<F>,
    W: &MultilinearPolynomial<F>,
    metadatas: eR1CSmetadata<F>,
    pp: &BrakingbaseProverParams<F>,
    commit1: &Vec<BrakingbaseCommitment<F>>,
    commit2: &Vec<BrakingbaseCommitment<F>>,
    transcript: &mut T,
)
    requires
        pp.wf::<H>(),
        z.wf(),
        E.wf(),
        W.wf(),
        E.num_vars == z.num_vars,
        W.num_vars == z.num_vars,
        matrix_fits(*A, z.evals@.len()),
        matrix_fits(*B, z.evals@.len()),
        matrix_fits(*C, z.evals@.len()),
        metas_sized(
            three_metas(metadatas),
            z.num_vars as nat,
            log2_of(metadatas.A.row.evals@.len()),
        ),
        log2_of(metadatas.A.row.evals@.len()) <= pp.num_vars,
        sat_balanced::<F, H>(
            F::modulus(),
            T::oracle(),
            pp.scheme(),
            old(transcript).tx(),
            A.rows(),
            B.rows(),
            C.rows(),
            u.value(),
            vals(z.evals@),
            vals(E.evals@),
            vals(W.evals@),
            three_metas(metadatas),
            log2_of(metadatas.A.row.evals@.len()),
        ),
    ensures
        final(transcript).tx() == sat_tx::<F, H>(
            F::modulus(),
            T::oracle(),
            pp.scheme(),
            old(transcript).tx(),
            A.rows(),
            B.rows(),
            C.rows(),
            u.value(),
            vals(z.evals@),
            vals(E.evals@),
            vals(W.evals@),
            three_metas(metadatas),
            log2_of(metadatas.A.row.evals@.len()),
        ),
{
    let ghost k = z.num_vars as nat;
    proof {
        F::lemma_modulus();
        lemma_log2_two_to(k);
        lemma_two_to_positive(k);
        assert(vals(z.evals@).len() == z.evals@.len());
    }
    let size = z.evals().len();
    let fsrp = first_layer_sum_check(A, B, C, u, z.evals(), copy_elements(E.evals()), transcript);
    let rx_basis_evals = basis_table(&fsrp);
    assert(size == two_to(k));
    let par_srp = parallel_sum_checks(
        A,
        B,
        C,
        copy_elements(z.evals()),
        copy_elements(&rx_basis_evals),
        transcript,
    );
    let w_eval = W.evaluate(&par_srp);
    transcript.write_field_element(&w_eval);
    let ghost m = three_metas(metadatas);
    let mut list: Vec<SparseMetaData<F>> = Vec::new();
    list.push(metadatas.A);
    list.push(metadatas.B);
    list.push(metadatas.C);
    assert(metas(list@) =~= m);
    batch_eval_proof::<F, H, S, T>(
        list,
        fsrp,
        par_srp,
        rx_basis_evals,
        E,
        W,
        pp,
        transcript,
    );
}

/// What checking the first two sum-checks leaves: their points, and the values claimed for the error,
/// the witness and the matrices.
pub struct Constraints {
    pub check: Check,
    pub rx: Seq<int>,
    pub ry: Seq<int>,
    pub e: int,
    pub w: int,
    pub evals: Seq<int>,
}

/// Checks the first two sum-checks.
pub open spec fn check_constraints(
    p: int,
    ch: Oracle,
    check: Check,
    k: nat,
    u: int,
    indices: Seq<int>,
    pi: Seq<int>,
) -> Constraints {
    let a = check_initial(p, ch, check, k, u);
    let (c1, rc) = a.check.squeeze_many(ch, 3);
    let b = check_parallel(p, ch, c1, k, indices, pi, rc, weighed_three(rc, a.evals) % p);
    Constraints { check: b.check, rx: a.point, ry: b.point, e: a.evals[3], w: b.w, evals: b.evals }
}

/// Checks the sum-check for the values of the matrices.
pub open spec fn check_matrices(p: int, ch: Oracle, check: Check, l: nat, evals: Seq<int>) -> Checked {
    let (c1, reads) = check.read_commitments(6);
    let (c2, rc) = c1.squeeze_many(ch, 3);
    check_matrix(p, ch, c2, l, weighed_three(rc, evals) % p, rc)
}

/// The products for the tables that are read agree with those for the reads, for rows and for columns
/// of each matrix.
pub open spec fn products_agree(p: int, a: Seq<int>, b: Seq<int>, i: int) -> bool {
    &&& cong(
        p,
        a[0] * a[1] * b[2 * i] * b[2 * i + 1],
        a[2 * i + 2] * a[2 * i + 3] * b[2 * i + 6] * b[2 * i + 7],
    )
    &&& cong(
        p,
        a[8] * a[9] * b[2 * i + 12] * b[2 * i + 13],
        a[2 * i + 10] * a[2 * i + 11] * b[2 * i + 18] * b[2 * i + 19],
    )
}

/// The values of the leaves for the tables that are read.
pub open spec fn memory_values(
    gamma: int,
    tau: int,
    indices: int,
    row_value: int,
    col_value: int,
    final_rows: Seq<int>,
    final_cols: Seq<int>,
) -> Seq<int> {
    let g2 = gamma * gamma;
    let r = indices + gamma * row_value - tau;
    let c = indices + gamma * col_value - tau;
    seq![
        r,
        r + g2 * final_rows[0],
        r + g2 * final_rows[1],
        r + g2 * final_rows[2],
        c,
        c + g2 * final_cols[0],
        c + g2 * final_cols[1],
        c + g2 * final_cols[2],
    ]
}

/// The value of a leaf for a read.
pub open spec fn read_value(gamma: int, tau: int, e: Seq<int>, i: int) -> int {
    e[i] + gamma * e[i + 3] + (gamma * gamma) * e[i + 6] - tau
}

/// The values of the leaves for the reads, from those of the rows, of what was read there and of the
/// times, and the same of the columns.
pub open spec fn lookup_values(gamma: int, tau: int, e: Seq<int>) -> Seq<int> {
    let g2 = gamma * gamma;
    Seq::new(3, |i: int| read_value(gamma, tau, e, i) + g2) + Seq::new(
        3,
        |i: int| read_value(gamma, tau, e, i),
    ) + Seq::new(3, |i: int| read_value(gamma, tau, e, 9 + i) + g2) + Seq::new(
        3,
        |i: int| read_value(gamma, tau, e, 9 + i),
    )
}

/// The values that were sent, with those for rows before those for columns.
pub open spec fn lookup_order(e: Seq<int>) -> Seq<int> {
    e.subrange(0, 3) + e.subrange(12, 15) + e.subrange(6, 9) + e.subrange(3, 6) + e.subrange(15, 18)
        + e.subrange(9, 12)
}

/// What checking the reads leaves.
pub struct ReadsChecked {
    pub check: Check,
    pub point1: Seq<int>,
    pub point2: Seq<int>,
    pub evals: Seq<int>,
}

/// Checks the reads.
pub open spec fn check_reads(
    p: int,
    ch: Oracle,
    check: Check,
    k: nat,
    l: nat,
    rx: Seq<int>,
    ry: Seq<int>,
) -> ReadsChecked {
    let (c1, gt) = check.squeeze_many(ch, 2);
    let a = gkr_check(p, ch, c1, 8, k);
    let b = gkr_check(p, ch, a.check, 12, l);
    let c2 = b.check.require(
        products_agree(p, a.finals, b.finals, 0) && products_agree(p, a.finals, b.finals, 1)
            && products_agree(p, a.finals, b.finals, 2),
        Error::MemoryCheck,
    );
    let (c3, e) = c2.read_many(24);
    let c4 = c3.require(
        cong(
            p,
            a.claim,
            dot(
                memory_values(
                    gt[0],
                    gt[1],
                    weighted_bits(a.point.reverse()),
                    eq_points(rx, a.point),
                    eq_points(ry, a.point),
                    e.subrange(18, 21),
                    e.subrange(21, 24),
                ),
                a.coeff,
            ),
        ),
        Error::InputLayer,
    );
    let c5 = c4.require(
        cong(p, b.claim, dot(lookup_values(gt[0], gt[1], lookup_order(e)), b.coeff)),
        Error::InputLayer,
    );
    ReadsChecked { check: c5, point1: a.point, point2: b.point, evals: e }
}

/// All values that were claimed, in the order in which they are weighed.
pub open spec fn all_claims(f: Constraints, d: Checked, r: ReadsChecked) -> Seq<int> {
    seq![f.e, f.w] + d.evals + r.evals.subrange(12, 18) + r.evals.subrange(0, 12) + r.evals.subrange(
        18,
        24,
    )
}

/// Checks the sum-check that turns all claims into claims at one point.
pub open spec fn check_claims(
    p: int,
    ch: Oracle,
    f: Constraints,
    d: Checked,
    r: ReadsChecked,
) -> Checked {
    let (c1, c) = r.check.squeeze_many(ch, 35);
    check_batched(
        p,
        ch,
        c1,
        seq![f.rx, f.ry, d.point, r.point2, r.point1],
        dot(all_claims(f, d, r), c) % p,
        c,
    )
}

/// Checks that the constraints hold.
pub open spec fn check_sat(
    p: int,
    ch: Oracle,
    check: Check,
    k: nat,
    l: nat,
    u: int,
    indices: Seq<int>,
    pi: Seq<int>,
) -> Check {
    let (c1, roots) = check.read_commitments(23);
    let f = check_constraints(p, ch, c1, k, u, indices, pi);
    let d = check_matrices(p, ch, f.check, l, f.evals);
    let r = check_reads(p, ch, d.check, k, l, f.rx, f.ry);
    check_claims(p, ch, f, d, r).check
}

/// A check that has failed stays as it is.
pub proof fn lemma_check_initial_failed(p: int, ch: Oracle, check: Check, k: nat, u: int)
    requires
        check.err is Some,
    ensures
        check_initial(p, ch, check, k, u).check == check,
{
    lemma_failed(check, ch, k);
    lemma_failed(check, ch, 4);
    lemma_check_rounds_failed(cubic_shape(p, ch), check, 0, 0, k);
}

/// A check that has failed stays as it is.
pub proof fn lemma_check_parallel_failed(
    p: int,
    ch: Oracle,
    check: Check,
    k: nat,
    indices: Seq<int>,
    pi: Seq<int>,
    rc: Seq<int>,
    claim: int,
)
    requires
        check.err is Some,
    ensures
        check_parallel(p, ch, check, k, indices, pi, rc, claim).check == check,
{
    lemma_failed(check, ch, 3);
    lemma_check_rounds_failed(quadratic_shape(p, ch), check, claim, 0, k);
}

/// A check that has failed stays as it is.
pub proof fn lemma_check_constraints_failed(
    p: int,
    ch: Oracle,
    check: Check,
    k: nat,
    u: int,
    indices: Seq<int>,
    pi: Seq<int>,
)
    requires
        check.err is Some,
    ensures
        check_constraints(p, ch, check, k, u, indices, pi).check == check,
{
    lemma_check_initial_failed(p, ch, check, k, u);
    lemma_failed(check, ch, 3);
    let a = check_initial(p, ch, check, k, u);
    let rc = a.check.squeeze_many(ch, 3).1;
    lemma_check_parallel_failed(
        p,
        ch,
        check,
        k,
        indices,
        pi,
        rc,
        weighed_three(rc, a.evals) % p,
    );
}

/// A check that has failed stays as it is.
pub proof fn lemma_check_matrix_failed(p: int, ch: Oracle, check: Check, l: nat, claim: int, rc: Seq<int>)
    requires
        check.err is Some,
    ensures
        check_matrix(p, ch, check, l, claim, rc).check == check,
{
    lemma_failed(check, ch, 9);
    lemma_check_rounds_failed(cubic_shape(p, ch), check, claim, 0, l);
}

/// A check that has failed stays as it is.
pub proof fn lemma_check_matrices_failed(p: int, ch: Oracle, check: Check, l: nat, evals: Seq<int>)
    requires
        check.err is Some,
    ensures
        check_matrices(p, ch, check, l, evals).check == check,
{
    lemma_failed(check, ch, 6);
    lemma_failed(check, ch, 3);
    let rc = check.squeeze_many(ch, 3).1;
    lemma_check_matrix_failed(p, ch, check, l, weighed_three(rc, evals) % p, rc);
}

/// A check that has failed stays as it is.
pub proof fn lemma_check_reads_failed(
    p: int,
    ch: Oracle,
    check: Check,
    k: nat,
    l: nat,
    rx: Seq<int>,
    ry: Seq<int>,
)
    requires
        check.err is Some,
        k >= 1,
        l >= 1,
    ensures
        check_reads(p, ch, check, k, l, rx, ry).check == check,
{
    lemma_failed(check, ch, 2);
    lemma_failed(check, ch, 24);
    lemma_gkr_check_from_failed(p, ch, check, 8, k);
    lemma_gkr_check_from_failed(p, ch, check, 12, l);
}

/// A check that has failed stays as it is.
pub proof fn lemma_check_claims_failed(p: int, ch: Oracle, f: Constraints, d: Checked, r: ReadsChecked)
    requires
        r.check.err is Some,
    ensures
        check_claims(p, ch, f, d, r).check == r.check,
{
    lemma_failed(r.check, ch, 35);
    lemma_failed(r.check, ch, 30);
    let c = r.check.squeeze_many(ch, 35).1;
    lemma_check_rounds_failed(
        batch_shape(p, ch),
        r.check,
        dot(all_claims(f, d, r), c) % p,
        0,
        d.point.len(),
    );
}

/// Checks the value of the input layer of the circuits for the tables that are read.
pub fn input_layer_check1<F: PrimeField>(
    gamma_tau: &Vec<F>,
    r_x: &Vec<F>,
    r_y: &Vec<F>,
    combiners: &Vec<F>,
    random_points: &Vec<F>,
    expected_eval: F,
    n_circuits: usize,
    final_ts_for_rows_evals: &Vec<F>,
    final_ts_for_cols_evals: &Vec<F>,
) -> (res: Result<(), Error>)
    requires
        gamma_tau@.len() >= 2,
        n_circuits >= 8,
        combiners@.len() >= n_circuits,
        r_x@.len() == random_points@.len(),
        r_y@.len() == random_points@.len(),
        random_points@.len() <= 64,
        final_ts_for_rows_evals@.len() >= 3,
        final_ts_for_cols_evals@.len() >= 3,
    ensures
        res == (if cong(
            F::modulus(),
            expected_eval.value(),
            dot(
                memory_values(
                    gamma_tau@[0].value(),
                    gamma_tau@[1].value(),
                    weighted_bits(vals(random_points@).reverse()),
                    eq_points(vals(r_x@), vals(random_points@)),
                    eq_points(vals(r_y@), vals(random_points@)),
                    vals(final_ts_for_rows_evals@),
                    vals(final_ts_for_cols_evals@),
                ),
                vals(combiners@),
            ),
        ) {
            Ok::<(), Error>(())
        } else {
            Err(Error::InputLayer)
        }),
{
    let ghost p = F::modulus();
    let ghost fr = vals(final_ts_for_rows_evals@);
    let ghost fc = vals(final_ts_for_cols_evals@);
    let ghost (g, t) = (gamma_tau@[0].value(), gamma_tau@[1].value());
    let ghost want = memory_values(
        g,
        t,
        weighted_bits(vals(random_points@).reverse()),
        eq_points(vals(r_x@), vals(random_points@)),
        eq_points(vals(r_y@), vals(random_points@)),
        fr,
        fc,
    );
    let r_x_eval = evaluate_eq(r_x, random_points);
    let r_y_eval = evaluate_eq(r_y, random_points);
    let reversed = reverse_elements(random_points);
    proof {
        F::lemma_modulus();
        lemma_vals_reverse(random_points@);
    }
    let indices_eval = evaluate_indicies(&reversed);
    let e0 = fingerprint_base(gamma_tau, indices_eval, r_x_eval);
    let e4 = fingerprint_base(gamma_tau, indices_eval, r_y_eval);
    let mut evals: Vec<F> = Vec::new();
    evals.push(e0);
    evals.push(fingerprint_time(gamma_tau, e0, final_ts_for_rows_evals[0]));
    evals.push(fingerprint_time(gamma_tau, e0, final_ts_for_rows_evals[1]));
    evals.push(fingerprint_time(gamma_tau, e0, final_ts_for_rows_evals[2]));
    evals.push(e4);
    evals.push(fingerprint_time(gamma_tau, e4, final_ts_for_cols_evals[0]));
    evals.push(fingerprint_time(gamma_tau, e4, final_ts_for_cols_evals[1]));
    evals.push(fingerprint_time(gamma_tau, e4, final_ts_for_cols_evals[2]));
    proof {
        let i = weighted_bits(vals(random_points@).reverse());
        let x = eq_points(vals(r_x@), vals(random_points@));
        let y = eq_points(vals(r_y@), vals(random_points@));
        lemma_base_cong(p, g, t, indices_eval.value(), i, r_x_eval.value(), x);
        lemma_base_cong(p, g, t, indices_eval.value(), i, r_y_eval.value(), y);
        let (b0, b4) = (i + g * x - t, i + g * y - t);
        lemma_time_cong(p, g, e0.value(), b0, fr[0]);
        lemma_time_cong(p, g, e0.value(), b0, fr[1]);
        lemma_time_cong(p, g, e0.value(), b0, fr[2]);
        lemma_time_cong(p, g, e4.value(), b4, fc[0]);
        lemma_time_cong(p, g, e4.value(), b4, fc[1]);
        lemma_time_cong(p, g, e4.value(), b4, fc[2]);
        assert(vals(evals@).len() == 8);
        assert forall|c: int| 0 <= c < 8 implies cong(p, #[trigger] vals(evals@)[c], want[c]) by {
            assert(c == 0 || c == 1 || c == 2 || c == 3 || c == 4 || c == 5 || c == 6 || c == 7);
        }
    }
    compare_claim(&evals, combiners, expected_eval, Ghost(want))
}

/// A leaf without its time.
proof fn lemma_base_cong(p: int, g: int, t: int, i: int, i2: int, x: int, x2: int)
    requires
        p > 0,
        i == i2 % p,
        x == x2 % p,
    ensures
        cong(p, (i + g * x - t) % p, i2 + g * x2 - t),
{
    lemma_cong_mod(p, i2);
    lemma_cong_mod(p, x2);
    crate::algebra::lemma_cong_mul(p, g, g, x, x2);
    lemma_cong_add(p, i, i2, g * x, g * x2);
    crate::algebra::lemma_cong_sub(p, i + g * x, i2 + g * x2, t, t);
    lemma_cong_mod(p, i + g * x - t);
}

/// A leaf with its time.
proof fn lemma_time_cong(p: int, g: int, a: int, b: int, x: int)
    requires
        p > 0,
        cong(p, a, b),
    ensures
        cong(p, (a + (g * g) * x) % p, b + (g * g) * x),
{
    lemma_cong_add(p, a, b, (g * g) * x, (g * g) * x);
    lemma_cong_mod(p, a + (g * g) * x);
}

/// Compares a claim with what values give when they are weighed.
fn compare_claim<F: PrimeField>(
    evals: &Vec<F>,
    combiners: &Vec<F>,
    expected_eval: F,
    Ghost(want): Ghost<Seq<int>>,
) -> (res: Result<(), Error>)
    requires
        cong_seq(F::modulus(), vals(evals@), want),
    ensures
        res == (if cong(F::modulus(), expected_eval.value(), dot(want, vals(combiners@))) {
            Ok::<(), Error>(())
        } else {
            Err(Error::InputLayer)
        }),
{
    let claimed = inner_product(evals, combiners);
    proof {
        let p = F::modulus();
        F::lemma_modulus();
        let c = vals(combiners@);
        assert(cong_seq(p, c, c));
        lemma_dot_cong(p, vals(evals@), want, c, c);
        lemma_cong_mod(p, dot(vals(evals@), c));
        claimed.lemma_value();
        expected_eval.lemma_value();
        lemma_equal_iff_cong(p, expected_eval.value(), claimed.value(), dot(want, c));
    }
    if expected_eval.equals(claimed) {
        Ok(())
    } else {
        Err(Error::InputLayer)
    }
}

/// Checks the value of the input layer of the circuits for the reads.
pub fn input_layer_check2<F: PrimeField>(
    gamma_tau: &Vec<F>,
    expected_eval: F,
    combiners: &Vec<F>,
    n_circuits: usize,
    evaluations: &Vec<F>,
) -> (res: Result<(), Error>)
    requires
        gamma_tau@.len() >= 2,
        n_circuits >= 12,
        combiners@.len() >= n_circuits,
        evaluations@.len() >= 18,
    ensures
        res == (if cong(
            F::modulus(),
            expected_eval.value(),
            dot(
                lookup_values(
                    gamma_tau@[0].value(),
                    gamma_tau@[1].value(),
                    vals(evaluations@),
                ),
                vals(combiners@),
            ),
        ) {
            Ok::<(), Error>(())
        } else {
            Err(Error::InputLayer)
        }),
{
    let ghost p = F::modulus();
    let ghost e = vals(evaluations@);
    let ghost (g, t) = (gamma_tau@[0].value(), gamma_tau@[1].value());
    let ghost want = lookup_values(g, t, e);
    proof {
        F::lemma_modulus();
    }
    let r0 = read_leaf(gamma_tau, evaluations, 0);
    let r1 = read_leaf(gamma_tau, evaluations, 1);
    let r2 = read_leaf(gamma_tau, evaluations, 2);
    let q0 = read_leaf(gamma_tau, evaluations, 9);
    let q1 = read_leaf(gamma_tau, evaluations, 10);
    let q2 = read_leaf(gamma_tau, evaluations, 11);
    let one = F::one();
    let mut evals: Vec<F> = Vec::new();
    evals.push(fingerprint_time(gamma_tau, r0, one));
    evals.push(fingerprint_time(gamma_tau, r1, one));
    evals.push(fingerprint_time(gamma_tau, r2, one));
    evals.push(r0);
    evals.push(r1);
    evals.push(r2);
    evals.push(fingerprint_time(gamma_tau, q0, one));
    evals.push(fingerprint_time(gamma_tau, q1, one));
    evals.push(fingerprint_time(gamma_tau, q2, one));
    evals.push(q0);
    evals.push(q1);
    evals.push(q2);
    proof {
        lemma_time_cong(p, g, r0.value(), read_value(g, t, e, 0), 1);
        lemma_time_cong(p, g, r1.value(), read_value(g, t, e, 1), 1);
        lemma_time_cong(p, g, r2.value(), read_value(g, t, e, 2), 1);
        lemma_time_cong(p, g, q0.value(), read_value(g, t, e, 9), 1);
        lemma_time_cong(p, g, q1.value(), read_value(g, t, e, 10), 1);
        lemma_time_cong(p, g, q2.value(), read_value(g, t, e, 11), 1);
        assert((g * g) * 1 == g * g);
        assert(vals(evals@).len() == 12);
        assert forall|c: int| 0 <= c < 12 implies cong(p, #[trigger] vals(evals@)[c], want[c]) by {
            assert(c == 0 || c == 1 || c == 2 || c == 3 || c == 4 || c == 5 || c == 6 || c == 7 || c
                == 8 || c == 9 || c == 10 || c == 11);
        }
    }
    compare_claim(&evals, combiners, expected_eval, Ghost(want))
}

/// The value of a leaf for a read.
fn read_leaf<F: PrimeField>(gamma_tau: &Vec<F>, e: &Vec<F>, i: usize) -> (r: F)
    requires
        gamma_tau@.len() >= 2,
        i <= 11,
        i + 6 < e@.len(),
    ensures
        cong(
            F::modulus(),
            r.value(),
            read_value(gamma_tau@[0].value(), gamma_tau@[1].value(), vals(e@), i as int),
        ),
{
    let base = fingerprint_base(gamma_tau, e[i], e[i + 3]);
    let r = fingerprint_time(gamma_tau, base, e[i + 6]);
    proof {
        F::lemma_modulus();
        let p = F::modulus();
        let (g, t) = (gamma_tau@[0].value(), gamma_tau@[1].value());
        let v = vals(e@);
        let i = i as int;
        lemma_cong_mod(p, v[i] + g * v[i + 3] - t);
        lemma_time_cong(p, g, base.value(), v[i] + g * v[i + 3] - t, v[i + 6]);
    }
    r
}

/// The points and the claimed values that the first two sum-checks give.
struct ConstraintData<F: PrimeField> {
    rx: Vec<F>,
    ry: Vec<F>,
    e: F,
    w: F,
    evals: Vec<F>,
}

/// Checks the first two sum-checks.
fn constraints_check<F: PrimeField, T: TranscriptRead<F>>(
    num_const: usize,
    u: F,
    pi_indices: &Vec<usize>,
    pi: &MultilinearPolynomial<F>,
    transcript: &mut T,
) -> (res: Result<ConstraintData<F>, Error>)
    requires
        num_const >= 1,
        is_power_of_two(num_const as nat),
        pi_indices@.len() >= pi.evals@.len(),
    ensures
        ({
            let k = log2_of(num_const as nat);
            let s = check_constraints(
                F::modulus(),
                T::oracle(),
                checking(old(transcript).rx()),
                k,
                u.value(),
                index_values(pi_indices@),
                vals(pi.evals@),
            );
            &&& final(transcript).rx() == s.check.rx
            &&& outcome(res, s.check.err)
            &&& res matches Ok(d) ==> {
                &&& vals(d.rx@) == s.rx
                &&& vals(d.ry@) == s.ry
                &&& d.e.value() == s.e
                &&& d.w.value() == s.w
                &&& vals(d.evals@) == s.evals
                &&& d.rx@.len() == k
                &&& d.ry@.len() == k
                &&& d.evals@.len() == 3
            }
        }),
{
    let ghost p = F::modulus();
    let ghost ch = T::oracle();
    let ghost k = log2_of(num_const as nat);
    let ghost check = checking(transcript.rx());
    let ghost a = check_initial(p, ch, check, k, u.value());
    let ghost (c1, rc) = a.check.squeeze_many(ch, 3);
    let ghost claim = weighed_three(rc, a.evals) % p;
    let (initial_sc_evals, rx) = match initial_sum_check_verification::<F, T>(
        num_const,
        u,
        transcript,
    ) {
        Ok(d) => d,
        Err(e) => {
            proof {
                lemma_failed(a.check, ch, 3);
                lemma_check_parallel_failed(
                    p,
                    ch,
                    c1,
                    k,
                    index_values(pi_indices@),
                    vals(pi.evals@),
                    rc,
                    claim,
                );
            }
            return Err(e);
        },
    };
    let random_coeffs = read_challenges::<F, T>(transcript, 3);
    proof {
        lemma_squeeze_many_rx(a.check, ch, 3);
        lemma_challenges_len(ch, a.check.rx.hist, 3);
        assert(vals(random_coeffs@).len() == random_coeffs@.len());
    }
    let par_sc_ic = weigh_values(&random_coeffs, &initial_sc_evals);
    let e = initial_sc_evals[3];
    let (ry, evals, w) = match par_sum_check_verification::<F, T>(
        num_const,
        pi_indices,
        pi,
        &random_coeffs,
        par_sc_ic,
        transcript,
    ) {
        Ok(d) => d,
        Err(e) => {
            return Err(e);
        },
    };
    Ok(ConstraintData { rx, ry, e, w, evals })
}

/// The point and the claimed values that the sum-check for the values of the matrices gives, and the
/// commitments to what was read.
struct MatrixData<F: PrimeField> {
    point: Vec<F>,
    evals: Vec<F>,
    commitments: Vec<Output>,
}

/// Checks the sum-check for the values of the matrices.
fn matrices_check<F: PrimeField, T: TranscriptRead<F>>(
    num_const: usize,
    sparsity: usize,
    evals: &Vec<F>,
    transcript: &mut T,
) -> (res: Result<MatrixData<F>, Error>)
    requires
        1 <= num_const * sparsity <= u32::MAX,
        is_power_of_two((num_const * sparsity) as nat),
        evals@.len() == 3,
    ensures
        ({
            let l = log2_of((num_const * sparsity) as nat);
            let s = check_matrices(
                F::modulus(),
                T::oracle(),
                checking(old(transcript).rx()),
                l,
                vals(evals@),
            );
            &&& final(transcript).rx() == s.check.rx
            &&& outcome(res, s.check.err)
            &&& res matches Ok(d) ==> {
                &&& vals(d.point@) == s.point
                &&& vals(d.evals@) == s.evals
                &&& d.point@.len() == l
                &&& d.evals@.len() == 9
                &&& d.commitments@.len() == 6
            }
        }),
{
    let ghost p = F::modulus();
    let ghost ch = T::oracle();
    let ghost l = log2_of((num_const * sparsity) as nat);
    let ghost check = checking(transcript.rx());
    let ghost (c1, roots) = check.read_commitments(6);
    let ghost (c2, rc) = c1.squeeze_many(ch, 3);
    let ghost claim = weighed_three(rc, vals(evals@)) % p;
    let commitments = match read_commitments::<F, T>(transcript, 6) {
        Ok(d) => d,
        Err(e) => {
            proof {
                lemma_failed(c1, ch, 3);
                lemma_check_matrix_failed(p, ch, c2, l, claim, rc);
            }
            return Err(e);
        },
    };
    let random_coeffs = read_challenges::<F, T>(transcript, 3);
    proof {
        lemma_read_commitments_len(check, 6);
        lemma_squeeze_many_rx(c1, ch, 3);
        lemma_challenges_len(ch, c1.rx.hist, 3);
        assert(vals(random_coeffs@).len() == random_coeffs@.len());
    }
    let evaluation = weigh_values(&random_coeffs, evals);
    let (point, e_rx, e_ry, val) = match matrix_eval_sum_check_verifier::<F, T>(
        num_const,
        sparsity,
        evaluation,
        random_coeffs,
        transcript,
    ) {
        Ok(d) => d,
        Err(e) => {
            return Err(e);
        },
    };
    let all = joined(&joined(&e_rx, &e_ry), &val);
    Ok(MatrixData { point, evals: all, commitments })
}

/// Whether the products agree for one matrix.
fn check_products<F: PrimeField>(a: &Vec<F>, b: &Vec<F>, i: usize) -> (r: bool)
    requires
        a@.len() == 16,
        b@.len() == 24,
        i < 3,
    ensures
        r == products_agree(F::modulus(), vals(a@), vals(b@), i as int),
{
    let x = product_of_four(a[0], a[1], b[2 * i], b[2 * i + 1]);
    let y = product_of_four(a[2 * i + 2], a[2 * i + 3], b[2 * i + 6], b[2 * i + 7]);
    let z = product_of_four(a[8], a[9], b[2 * i + 12], b[2 * i + 13]);
    let w = product_of_four(a[2 * i + 10], a[2 * i + 11], b[2 * i + 18], b[2 * i + 19]);
    x.equals(y) && z.equals(w)
}

/// The points and the values that the check of the reads gives.
struct ReadData<F: PrimeField> {
    point1: Vec<F>,
    point2: Vec<F>,
    evals: Vec<F>,
}

/// Checks the reads.
fn reads_check<F: PrimeField, T: TranscriptRead<F>>(
    k: usize,
    l: usize,
    rx: &Vec<F>,
    ry: &Vec<F>,
    transcript: &mut T,
) -> (res: Result<ReadData<F>, Error>)
    requires
        1 <= k <= 64,
        l >= 1,
        rx@.len() == k,
        ry@.len() == k,
    ensures
        ({
            let s = check_reads(
                F::modulus(),
                T::oracle(),
                checking(old(transcript).rx()),
                k as nat,
                l as nat,
                vals(rx@),
                vals(ry@),
            );
            &&& final(transcript).rx() == s.check.rx
            &&& outcome(res, s.check.err)
            &&& res matches Ok(d) ==> {
                &&& vals(d.point1@) == s.point1
                &&& vals(d.point2@) == s.point2
                &&& vals(d.evals@) == s.evals
                &&& d.point1@.len() == k
                &&& d.point2@.len() == l
                &&& d.evals@.len() == 24
            }
        }),
{
    let ghost p = F::modulus();
    let ghost ch = T::oracle();
    let ghost check = checking(transcript.rx());
    let ghost (c1, gt) = check.squeeze_many(ch, 2);
    let gamma_tau = read_challenges::<F, T>(transcript, 2);
    proof {
        lemma_squeeze_many_rx(check, ch, 2);
        lemma_challenges_len(ch, check.rx.hist, 2);
        assert(vals(gamma_tau@).len() == gamma_tau@.len());
    }
    let ghost a = gkr_check(p, ch, c1, 8, k as nat);
    let (claim1, coeff1, point1, finals1) = match gkr_verifier::<F, T>(k, transcript, 8) {
        Ok(d) => d,
        Err(e) => {
            proof {
                lemma_gkr_check_from_failed(p, ch, a.check, 12, l as nat);
                lemma_failed(a.check, ch, 24);
            }
            return Err(e);
        },
    };
    let ghost b = gkr_check(p, ch, a.check, 12, l as nat);
    let (claim2, coeff2, point2, finals2) = match gkr_verifier::<F, T>(l, transcript, 12) {
        Ok(d) => d,
        Err(e) => {
            proof {
                lemma_failed(b.check, ch, 24);
            }
            return Err(e);
        },
    };
    let agree = check_products(&finals1, &finals2, 0) && check_products(&finals1, &finals2, 1)
        && check_products(&finals1, &finals2, 2);
    let ghost c2 = b.check.require(
        products_agree(p, a.finals, b.finals, 0) && products_agree(p, a.finals, b.finals, 1)
            && products_agree(p, a.finals, b.finals, 2),
        Error::MemoryCheck,
    );
    if !agree {
        proof {
            lemma_failed(c2, ch, 24);
        }
        return Err(Error::MemoryCheck);
    }
    let evals = match read_field_elements::<F, T>(transcript, 24) {
        Ok(e) => e,
        Err(e) => {
            return Err(e);
        },
    };
    let ghost e = vals(evals@);
    proof {
        lemma_read_many_len(c2, 24);
        assert(vals(evals@).len() == evals@.len());
    }
    let final_rows = sub_vector(&evals, 18, 21);
    let final_cols = sub_vector(&evals, 21, 24);
    assert(vals(final_rows@) =~= e.subrange(18, 21));
    assert(vals(final_cols@) =~= e.subrange(21, 24));
    match input_layer_check1(
        &gamma_tau,
        rx,
        ry,
        &coeff1,
        &point1,
        claim1,
        8,
        &final_rows,
        &final_cols,
    ) {
        Ok(_) => {},
        Err(e) => {
            return Err(e);
        },
    }
    let input = joined(&sub_vector(&evals, 0, 3), &sub_vector(&evals, 12, 15));
    let input = joined(&input, &sub_vector(&evals, 6, 9));
    let input = joined(&input, &sub_vector(&evals, 3, 6));
    let input = joined(&input, &sub_vector(&evals, 15, 18));
    let input = joined(&input, &sub_vector(&evals, 9, 12));
    assert(vals(input@) =~= lookup_order(e));
    match input_layer_check2(&gamma_tau, claim2, &coeff2, 12, &input) {
        Ok(_) => {},
        Err(e) => {
            return Err(e);
        },
    }
    Ok(ReadData { point1, point2, evals })
}

/// Checks the sum-check that turns all claims into claims at one point.
fn claims_check<F: PrimeField, T: TranscriptRead<F>>(
    first: ConstraintData<F>,
    point: Vec<F>,
    matrix_evals: &Vec<F>,
    third: ReadData<F>,
    transcript: &mut T,
    Ghost(f): Ghost<Constraints>,
    Ghost(d): Ghost<Checked>,
    Ghost(r): Ghost<ReadsChecked>,
) -> (res: Result<(Vec<F>, Vec<F>), Error>)
    requires
        r.check == checking(old(transcript).rx()),
        f.rx == vals(first.rx@),
        f.ry == vals(first.ry@),
        f.e == first.e.value(),
        f.w == first.w.value(),
        d.point == vals(point@),
        d.evals == vals(matrix_evals@),
        r.point1 == vals(third.point1@),
        r.point2 == vals(third.point2@),
        r.evals == vals(third.evals@),
        matrix_evals@.len() == 9,
        third.evals@.len() == 24,
        first.ry@.len() == first.rx@.len(),
        third.point1@.len() == first.rx@.len(),
        third.point2@.len() == point@.len(),
        first.rx@.len() <= point@.len() <= 2 * first.rx@.len(),
    ensures
        ({
            let s = check_claims(F::modulus(), T::oracle(), f, d, r);
            &&& final(transcript).rx() == s.check.rx
            &&& outcome(res, s.check.err)
            &&& res matches Ok(x) ==> {
                &&& vals(x.0@) == s.evals
                &&& vals(x.1@) == s.point
                &&& x.0@.len() == 29
                &&& x.1@.len() == point@.len()
            }
        }),
{
    let ghost ch = T::oracle();
    let batch_sc_rc = read_challenges::<F, T>(transcript, 35);
    proof {
        lemma_squeeze_many_rx(r.check, ch, 35);
        lemma_challenges_len(ch, r.check.rx.hist, 35);
        assert(vals(batch_sc_rc@).len() == batch_sc_rc@.len());
    }
    let mut claims: Vec<F> = Vec::new();
    claims.push(first.e);
    claims.push(first.w);
    let claims = joined(&claims, matrix_evals);
    let claims = joined(&claims, &sub_vector(&third.evals, 12, 18));
    let claims = joined(&claims, &sub_vector(&third.evals, 0, 12));
    let claims = joined(&claims, &sub_vector(&third.evals, 18, 24));
    assert(vals(claims@) =~= all_claims(f, d, r));
    let initial_claim = inner_product(&claims, &batch_sc_rc);
    let mut batch_r: Vec<Vec<F>> = Vec::new();
    batch_r.push(first.rx);
    batch_r.push(first.ry);
    batch_r.push(point);
    batch_r.push(third.point2);
    batch_r.push(third.point1);
    assert(vals2(batch_r@) =~= seq![f.rx, f.ry, d.point, r.point2, r.point1]);
    batch_sum_check_verifier::<F, T>(batch_r, initial_claim, transcript, &batch_sc_rc)
}

/// The commitments with the given roots.
fn commitments_from<F: PrimeField>(roots: &Vec<Output>) -> (r: Vec<BrakingbaseCommitment<F>>)
    ensures
        r@.len() == roots@.len(),
        forall|i: int| 0 <= i < roots@.len() ==> (#[trigger] r@[i]).root == roots@[i],
{
    let mut r: Vec<BrakingbaseCommitment<F>> = Vec::new();
    let mut i: usize = 0;
    while i < roots.len()
        invariant
            i <= roots@.len(),
            r@.len() == i,
            forall|j: int| 0 <= j < i ==> (#[trigger] r@[j]).root == roots@[j],
        decreases roots@.len() - i,
    {
        r.push(BrakingbaseCommitment::from_root(roots[i]));
        i += 1;
    }
    r
}

/// The commitments to the tables with an entry for each entry of a matrix: those of each kind for the
/// three matrices, and those to what was read.
fn entry_commitments<F: PrimeField>(roots: &Vec<Output>, reads: &Vec<Output>) -> (r: Vec<
    BrakingbaseCommitment<F>,
>)
    requires
        roots@.len() == 23,
        reads@.len() == 6,
    ensures
        r@.len() == 21,
        forall|i: int, c: int|
            #![trigger r@[3 * i + c]]
            0 <= i < 5 && 0 <= c < 3 ==> r@[3 * i + c].root == roots@[2 + 7 * c + i],
        forall|i: int| 0 <= i < 6 ==> (#[trigger] r@[15 + i]).root == reads@[i],
{
    let mut list: Vec<Output> = Vec::new();
    let mut i: usize = 0;
    while i < 5
        invariant
            i <= 5,
            roots@.len() == 23,
            list@.len() == 3 * i,
            forall|j: int, c: int|
                #![trigger list@[3 * j + c]]
                0 <= j < i && 0 <= c < 3 ==> list@[3 * j + c] == roots@[2 + 7 * c + j],
        decreases 5 - i,
    {
        list.push(roots[2 + i]);
        list.push(roots[9 + i]);
        list.push(roots[16 + i]);
        i += 1;
    }
    let mut i: usize = 0;
    while i < 6
        invariant
            i <= 6,
            reads@.len() == 6,
            list@.len() == 15 + i,
            forall|j: int, c: int|
                #![trigger list@[3 * j + c]]
                0 <= j < 5 && 0 <= c < 3 ==> list@[3 * j + c] == roots@[2 + 7 * c + j],
            forall|j: int| 0 <= j < i ==> #[trigger] list@[15 + j] == reads@[j],
        decreases 6 - i,
    {
        list.push(reads[i]);
        i += 1;
    }
    commitments_from(&list)
}

/// The commitments to the tables with an entry for each row or column: the times that are left for the
/// three matrices, the error and the witness.
fn row_commitments<F: PrimeField>(roots: &Vec<Output>) -> (r: Vec<BrakingbaseCommitment<F>>)
    requires
        roots@.len() == 23,
    ensures
        r@.len() == 8,
        forall|c: int| 0 <= c < 3 ==> (#[trigger] r@[c]).root == roots@[7 + 7 * c],
        forall|c: int| 0 <= c < 3 ==> (#[trigger] r@[3 + c]).root == roots@[8 + 7 * c],
        r@[6].root == roots@[0],
        r@[7].root == roots@[1],
{
    let mut list: Vec<Output> = Vec::new();
    list.push(roots[7]);
    list.push(roots[14]);
    list.push(roots[21]);
    list.push(roots[8]);
    list.push(roots[15]);
    list.push(roots[22]);
    list.push(roots[0]);
    list.push(roots[1]);
    commitments_from(&list)
}

/// Checks a proof that the constraints hold for a vector with the public input `PI` at the places
/// `pi_indices`.
#[allow(non_snake_case)]
#[verifier::rlimit(60)]
pub fn verify_sat<F: PrimeField, H: HashFunction, S: BrakingbaseSpec, T: TranscriptRead<F>>(
    num_const: usize,
    sparsity: usize,
    vp: &BrakingbaseVerifierParams<F>,
    u: F,
    PI: MultilinearPolynomial<F>,
    pi_indices: Vec<usize>,
    transcript: &mut T,
) -> (res: Result<(), Error>)
    requires
        num_const >= 2,
        is_power_of_two(num_const as nat),
        1 <= sparsity <= num_const,
        num_const * sparsity <= u32::MAX,
        is_power_of_two((num_const * sparsity) as nat),
        pi_indices@.len() >= PI.evals@.len(),
    ensures
        ({
            let c = check_sat(
                F::modulus(),
                T::oracle(),
                checking(old(transcript).rx()),
                log2_of(num_const as nat),
                log2_of((num_const * sparsity) as nat),
                u.value(),
                index_values(pi_indices@),
                vals(PI.evals@),
            );
            &&& final(transcript).rx() == c.rx
            &&& outcome(res, c.err)
        }),
{
    let ghost p = F::modulus();
    let ghost ch = T::oracle();
    let ghost kk = log2_of(num_const as nat);
    let ghost ll = log2_of((num_const * sparsity) as nat);
    let ghost check = checking(transcript.rx());
    let ghost (c1, rs) = check.read_commitments(23);
    let ghost f = check_constraints(
        p,
        ch,
        c1,
        kk,
        u.value(),
        index_values(pi_indices@),
        vals(PI.evals@),
    );
    let ghost d = check_matrices(p, ch, f.check, ll, f.evals);
    let ghost r = check_reads(p, ch, d.check, kk, ll, f.rx, f.ry);
    proof {
        lemma_shape(num_const as nat, sparsity as nat);
    }
    let k = log2(num_const);
    let l = log2(num_const * sparsity);
    let roots = match read_commitments::<F, T>(transcript, 23) {
        Ok(d) => d,
        Err(e) => {
            proof {
                lemma_check_constraints_failed(
                    p,
                    ch,
                    c1,
                    kk,
                    u.value(),
                    index_values(pi_indices@),
                    vals(PI.evals@),
                );
                lemma_check_matrices_failed(p, ch, f.check, ll, f.evals);
                lemma_check_reads_failed(p, ch, d.check, kk, ll, f.rx, f.ry);
                lemma_check_claims_failed(p, ch, f, d, r);
            }
            return Err(e);
        },
    };
    let first = match constraints_check::<F, T>(num_const, u, &pi_indices, &PI, transcript) {
        Ok(d) => d,
        Err(e) => {
            proof {
                lemma_check_matrices_failed(p, ch, f.check, ll, f.evals);
                lemma_check_reads_failed(p, ch, d.check, kk, ll, f.rx, f.ry);
                lemma_check_claims_failed(p, ch, f, d, r);
            }
            return Err(e);
        },
    };
    let second = match matrices_check::<F, T>(num_const, sparsity, &first.evals, transcript) {
        Ok(d) => d,
        Err(e) => {
            proof {
                lemma_check_reads_failed(p, ch, d.check, kk, ll, f.rx, f.ry);
                lemma_check_claims_failed(p, ch, f, d, r);
            }
            return Err(e);
        },
    };
    let third = match reads_check::<F, T>(k, l, &first.rx, &first.ry, transcript) {
        Ok(d) => d,
        Err(e) => {
            proof {
                lemma_check_claims_failed(p, ch, f, d, r);
            }
            return Err(e);
        },
    };
    let num_var_witness = first.rx.len();
    let (evals, bt_sc_rp) = match claims_check::<F, T>(
        first,
        second.point,
        &second.evals,
        third,
        transcript,
        Ghost(f),
        Ghost(d),
        Ghost(r),
    ) {
        Ok(d) => d,
        Err(e) => {
            return Err(e);
        },
    };
    proof {
        lemma_read_commitments_len(check, 23);
    }
    let commit1 = entry_commitments::<F>(&roots, &second.commitments);
    let commit2 = row_commitments::<F>(&roots);
    let evals1 = joined(&sub_vector(&evals, 0, 6), &sub_vector(&evals, 24, 27));
    let evals1 = joined(&evals1, &sub_vector(&evals, 6, 18));
    let evals2 = joined(&sub_vector(&evals, 18, 24), &sub_vector(&evals, 27, 29));
    let tail = sub_vector(&bt_sc_rp, bt_sc_rp.len() - num_var_witness, bt_sc_rp.len());
    let mut points1: Vec<Vec<F>> = Vec::new();
    points1.push(bt_sc_rp);
    let mut points2: Vec<Vec<F>> = Vec::new();
    points2.push(tail);
    match Brakingbase::<F, H, S>::batch_verify(vp, &commit1, &points1, &evals1, transcript) {
        Ok(_) => {},
        Err(e) => {
            return Err(e);
        },
    }
    Brakingbase::<F, H, S>::batch_verify(vp, &commit2, &points2, &evals2, transcript)
}

/// The numbers of rounds for a constraint system.
pub proof fn lemma_shape(n: nat, s: nat)
    requires
        n >= 2,
        is_power_of_two(n),
        1 <= s <= n,
        n * s <= u32::MAX,
        is_power_of_two(n * s),
    ensures
        1 <= log2_of(n) <= log2_of(n * s) <= 2 * log2_of(n),
        log2_of(n * s) < 32,
{
    let m = n * s;
    assert(n <= m) by (nonlinear_arith)
        requires
            1 <= s,
            m == n * s,
    ;
    assert(m <= n * n) by (nonlinear_arith)
        requires
            s <= n,
            m == n * s,
    ;
    lemma_rounds_between(n, m);
}

/// The numbers of halvings of two powers of two.
proof fn lemma_rounds_between(n: nat, m: nat)
    requires
        n >= 2,
        is_power_of_two(n),
        n <= m <= n * n,
        m <= u32::MAX,
        is_power_of_two(m),
    ensures
        1 <= log2_of(n) <= log2_of(m) <= 2 * log2_of(n),
        log2_of(m) < 32,
{
    let k = log2_of(n);
    let l = log2_of(m);
    assert(two_to(0) == 1);
    if l < k {
        lemma_two_to_monotone(l + 1, k);
        assert(two_to(l + 1) == 2 * two_to(l));
        lemma_two_to_positive(l);
        assert(false);
    }
    lemma_two_to_add(k, k);
    if l > 2 * k {
        lemma_two_to_monotone(2 * k + 1, l);
        assert(two_to(2 * k + 1) == 2 * two_to(2 * k));
        lemma_two_to_positive(2 * k);
        assert(two_to(k) * two_to(k) == n * n);
        assert(false);
    }
    if l >= 32 {
        lemma_two_to_monotone(32, l);
        lemma_two_to_word();
        assert(false);
    }
}

} // verus!
