//! Extended rank-one constraint systems: making one that a vector satisfies, and committing to one.
use vstd::prelude::*;
use std::collections::HashMap;
use crate::algebra::{cong, lemma_cong_add, lemma_cong_mod, lemma_cong_sub, two_to};
use crate::bits::{ceil_log2, is_power_of_two, lemma_log2_two_to};
use crate::brakingbase::{
    BrakingbaseCommitment, BrakingbaseProverParams, BrakingbaseSpec, Scheme, committed_rows,
    is_commitment, root_of,
};
use crate::field::{PrimeField, repeat_element, vals};
use crate::hash::{HashFunction, Output};
use crate::poly::MultilinearPolynomial;
use crate::snark::helper::{
    ColumnData, Meta, SparseMetaData, SparseRep, all_entries, are_commitments, columns_below,
    dim_of, eR1CSmetadata, entries_fit, larger, matrix_product, meta_of, meta_parts, meta_roots,
    rows_present, send_commitment, sparse_matrix_multiply, tuples_of,
};
use crate::transcript::{TranscriptWrite, Tx};

verus! {

/// A vector with the public input added to its first entries.
pub open spec fn with_public(p: int, w: Seq<int>, pi: Seq<int>) -> Seq<int> {
    Seq::new(
        w.len(),
        |i: int|
            if i < pi.len() {
                (w[i] + pi[i]) % p
            } else {
                w[i]
            },
    )
}

/// The error that makes every constraint hold.
pub open spec fn relaxed_error(
    p: int,
    a: Seq<Seq<(int, int)>>,
    b: Seq<Seq<(int, int)>>,
    c: Seq<Seq<(int, int)>>,
    u: int,
    z: Seq<int>,
) -> Seq<int> {
    let az = matrix_product(p, a, z);
    let bz = matrix_product(p, b, z);
    let cz = matrix_product(p, c, z);
    Seq::new(z.len(), |i: int| (az[i] * bz[i] - u * cz[i]) % p)
}

/// Every constraint holds: the product of two rows with the vector is `u` times that of the third,
/// plus the error.
pub open spec fn relation_holds(
    p: int,
    a: Seq<Seq<(int, int)>>,
    b: Seq<Seq<(int, int)>>,
    c: Seq<Seq<(int, int)>>,
    u: int,
    z: Seq<int>,
    e: Seq<int>,
) -> bool {
    let az = matrix_product(p, a, z);
    let bz = matrix_product(p, b, z);
    let cz = matrix_product(p, c, z);
    &&& e.len() == z.len()
    &&& forall|i: int|
        0 <= i < z.len() ==> cong(p, #[trigger] az[i] * bz[i], u * cz[i] + e[i])
}

/// The error makes every constraint hold.
pub proof fn law_error_satisfies(
    p: int,
    a: Seq<Seq<(int, int)>>,
    b: Seq<Seq<(int, int)>>,
    c: Seq<Seq<(int, int)>>,
    u: int,
    z: Seq<int>,
)
    requires
        p > 0,
    ensures
        relation_holds(p, a, b, c, u, z, relaxed_error(p, a, b, c, u, z)),
{
    let az = matrix_product(p, a, z);
    let bz = matrix_product(p, b, z);
    let cz = matrix_product(p, c, z);
    let e = relaxed_error(p, a, b, c, u, z);
    assert forall|i: int| 0 <= i < z.len() implies cong(p, #[trigger] az[i] * bz[i], u * cz[i] + e[i]) by {
        let x = az[i] * bz[i];
        let y = u * cz[i];
        lemma_cong_mod(p, x - y);
        lemma_cong_add(p, y, y, e[i], x - y);
        assert(y + (x - y) == x);
    }
}

/// Makes a constraint system that a vector satisfies, out of its matrices, the witness `W`, the
/// scalar `u` and the public input `PI`: the vector is the witness with the public input added to its
/// first entries, and the error is what makes the constraints hold.
#[allow(non_snake_case)]
pub fn satisfied_system<F: PrimeField>(
    A: HashMap<usize, Vec<ColumnData<F>>>,
    B: HashMap<usize, Vec<ColumnData<F>>>,
    C: HashMap<usize, Vec<ColumnData<F>>>,
    W: Vec<F>,
    u: F,
    PI: Vec<F>,
) -> (r: (
    SparseRep<F>,
    SparseRep<F>,
    SparseRep<F>,
    Vec<F>,
    MultilinearPolynomial<F>,
    MultilinearPolynomial<F>,
    F,
    Vec<F>,
))
    requires
        rows_present(A@),
        rows_present(B@),
        rows_present(C@),
        W@.len() >= 1,
        is_power_of_two(W@.len()),
        A@.len() <= W@.len(),
        B@.len() <= W@.len(),
        C@.len() <= W@.len(),
        forall|i: usize, k: int|
            #![trigger A@[i]@[k]]
            A@.contains_key(i) && 0 <= k < A@[i]@.len() ==> A@[i]@[k].column < W@.len(),
        forall|i: usize, k: int|
            #![trigger B@[i]@[k]]
            B@.contains_key(i) && 0 <= k < B@[i]@.len() ==> B@[i]@[k].column < W@.len(),
        forall|i: usize, k: int|
            #![trigger C@[i]@[k]]
            C@.contains_key(i) && 0 <= k < C@[i]@.len() ==> C@[i]@[k].column < W@.len(),
    ensures
        r.0.fourcoeffs == A,
        r.1.fourcoeffs == B,
        r.2.fourcoeffs == C,
        r.0.wf(),
        r.1.wf(),
        r.2.wf(),
        vals(r.3@) == with_public(F::modulus(), vals(W@), vals(PI@)),
        r.4.wf(),
        vals(r.4.evals@) == relaxed_error(
            F::modulus(),
            r.0.rows(),
            r.1.rows(),
            r.2.rows(),
            u.value(),
            vals(r.3@),
        ),
        r.5.wf(),
        r.5.evals == W,
        r.6 == u,
        r.7 == PI,
        relation_holds(
            F::modulus(),
            r.0.rows(),
            r.1.rows(),
            r.2.rows(),
            u.value(),
            vals(r.3@),
            vals(r.4.evals@),
        ),
{
    let ghost p = F::modulus();
    let z = add_public(&W, &PI);
    let a = SparseRep::new(A);
    let b = SparseRep::new(B);
    let c = SparseRep::new(C);
    proof {
        lemma_columns(a, W@.len());
        lemma_columns(b, W@.len());
        lemma_columns(c, W@.len());
    }
    let az = sparse_matrix_multiply(&a, &z);
    let bz = sparse_matrix_multiply(&b, &z);
    let cz = sparse_matrix_multiply(&c, &z);
    let e = error_vector(&az, &bz, &cz, u);
    proof {
        F::lemma_modulus();
        assert(vals(e@) =~= relaxed_error(p, a.rows(), b.rows(), c.rows(), u.value(), vals(z@)));
        law_error_satisfies(p, a.rows(), b.rows(), c.rows(), u.value(), vals(z@));
    }
    (a, b, c, z, MultilinearPolynomial::new(e), MultilinearPolynomial::new(W), u, PI)
}

/// The rows of a matrix that is made of drawn entries, `sparsity` for each of the `n` rows.
pub open spec fn drawn_rows<F: PrimeField>(
    draws: Seq<(usize, F)>,
    n: nat,
    sparsity: nat,
) -> Seq<Seq<(int, int)>> {
    Seq::new(
        n,
        |i: int|
            Seq::new(
                sparsity,
                |k: int| (draws[i * sparsity + k].0 as int, draws[i * sparsity + k].1.value()),
            ),
    )
}

/// A map holds exactly the rows below `n`, each with `sparsity` entries in columns below `cols`.
pub open spec fn rows_shaped<F: PrimeField>(
    m: Map<usize, Vec<ColumnData<F>>>,
    n: nat,
    cols: nat,
    sparsity: nat,
) -> bool {
    &&& forall|i: usize| #[trigger] m.contains_key(i) <==> i < n
    &&& forall|i: usize| i < n ==> (#[trigger] m[i])@.len() == sparsity
    &&& forall|i: usize, k: int|
        #![trigger m[i]@[k]]
        i < n && 0 <= k < sparsity ==> m[i]@[k].column < cols
}

/// Makes the rows of a matrix out of entries that were drawn, `sparsity` for each row, in the order
/// in which they were drawn.
pub fn rows_from_draws<F: PrimeField>(
    num_rows: usize,
    num_cols: usize,
    sparsity: usize,
    draws: &Vec<(usize, F)>,
) -> (r: HashMap<usize, Vec<ColumnData<F>>>)
    requires
        draws@.len() == num_rows * sparsity,
        forall|j: int| 0 <= j < draws@.len() ==> (#[trigger] draws@[j]).0 < num_cols,
    ensures
        rows_present(r@),
        r@.len() == num_rows,
        rows_shaped(r@, num_rows as nat, num_cols as nat, sparsity as nat),
        forall|i: usize, k: int|
            #![trigger r@[i]@[k]]
            i < num_rows && 0 <= k < sparsity ==> r@[i]@[k].column == draws@[i * sparsity + k].0
                && r@[i]@[k].value == draws@[i * sparsity + k].1,
{
    broadcast use vstd::std_specs::hash::group_hash_axioms;

    let ghost w = sparsity as nat;
    let total = draws.len();
    let mut r: HashMap<usize, Vec<ColumnData<F>>> = HashMap::new();
    let mut i: usize = 0;
    let mut at: usize = 0;
    while i < num_rows
        invariant
            i <= num_rows,
            w == sparsity,
            total == draws@.len(),
            draws@.len() == num_rows * w,
            forall|j: int| 0 <= j < draws@.len() ==> (#[trigger] draws@[j]).0 < num_cols,
            at == i * w,
            r@.dom().finite(),
            r@.len() == i,
            rows_shaped(r@, i as nat, num_cols as nat, w),
            forall|a: usize, k: int|
                #![trigger r@[a]@[k]]
                a < i && 0 <= k < w ==> r@[a]@[k].column == draws@[a * w + k].0 && r@[a]@[k].value
                    == draws@[a * w + k].1,
        decreases num_rows - i,
    {
        broadcast use vstd::std_specs::hash::group_hash_axioms;

        proof {
            assert((i + 1) * w == i * w + w) by (nonlinear_arith);
            assert((i + 1) * w <= num_rows * w) by (nonlinear_arith)
                requires
                    i + 1 <= num_rows,
            ;
        }
        let mut row: Vec<ColumnData<F>> = Vec::new();
        let mut k: usize = 0;
        while k < sparsity
            invariant
                k <= sparsity,
                w == sparsity,
                total == draws@.len(),
                at + w <= total,
                forall|j: int| 0 <= j < draws@.len() ==> (#[trigger] draws@[j]).0 < num_cols,
                row@.len() == k,
                forall|b: int|
                    0 <= b < k ==> (#[trigger] row@[b]).column == draws@[at + b].0 && row@[b].value
                        == draws@[at + b].1 && row@[b].column < num_cols,
            decreases sparsity - k,
        {
            assert(draws@[at + k].0 < num_cols);
            row.push(ColumnData::new(draws[at + k].0, draws[at + k].1));
            k += 1;
        }
        let ghost before = r@;
        r.insert(i, row);
        assert(r@ == before.insert(i, row));
        assert(!before.contains_key(i));
        assert(r@.dom() =~= before.dom().insert(i));
        at = at + sparsity;
        i += 1;
    }
    r
}

/// The rows of a matrix that was drawn.
proof fn lemma_drawn_rows<F: PrimeField>(m: SparseRep<F>, draws: Seq<(usize, F)>, n: nat, sparsity: nat)
    requires
        m.wf(),
        m.fourcoeffs@.len() == n,
        n <= usize::MAX,
        forall|i: usize| i < n ==> (#[trigger] m.fourcoeffs@[i])@.len() == sparsity,
        forall|i: usize, k: int|
            #![trigger m.fourcoeffs@[i]@[k]]
            i < n && 0 <= k < sparsity ==> m.fourcoeffs@[i]@[k].column == draws[i * sparsity + k].0
                && m.fourcoeffs@[i]@[k].value == draws[i * sparsity + k].1,
    ensures
        m.rows() == drawn_rows(draws, n, sparsity),
{
    let want = drawn_rows(draws, n, sparsity);
    assert forall|i: int| 0 <= i < n implies m.rows()[i] == want[i] by {
        let q = i as usize;
        assert(m.fourcoeffs@[q]@.len() == sparsity);
        assert forall|k: int| 0 <= k < sparsity implies m.rows()[i][k] == want[i][k] by {
            assert(m.fourcoeffs@[q]@[k].column == draws[q * sparsity + k].0);
        }
        assert(m.rows()[i] =~= want[i]);
    }
    assert(m.rows() =~= want);
}

/// Makes a constraint system that a vector satisfies out of drawn numbers: `num_const - 1` rows of
/// `sparsity` entries in the columns below `num_var - 1` for each matrix, a witness that holds `w`
/// throughout, and a public input that holds `pi` throughout.
#[allow(non_snake_case)]
pub fn construct_matrices<F: PrimeField>(
    sparsity: usize,
    num_const: usize,
    num_var: usize,
    num_pi: usize,
    w: F,
    u: F,
    pi: F,
    a_draws: &Vec<(usize, F)>,
    b_draws: &Vec<(usize, F)>,
    c_draws: &Vec<(usize, F)>,
) -> (r: (
    SparseRep<F>,
    SparseRep<F>,
    SparseRep<F>,
    Vec<F>,
    MultilinearPolynomial<F>,
    MultilinearPolynomial<F>,
    F,
    Vec<F>,
))
    requires
        num_const >= 1,
        is_power_of_two(num_const as nat),
        1 <= num_var <= num_const + 1,
        a_draws@.len() == (num_const - 1) * sparsity,
        b_draws@.len() == (num_const - 1) * sparsity,
        c_draws@.len() == (num_const - 1) * sparsity,
        forall|j: int| 0 <= j < a_draws@.len() ==> (#[trigger] a_draws@[j]).0 < num_var - 1,
        forall|j: int| 0 <= j < b_draws@.len() ==> (#[trigger] b_draws@[j]).0 < num_var - 1,
        forall|j: int| 0 <= j < c_draws@.len() ==> (#[trigger] c_draws@[j]).0 < num_var - 1,
    ensures
        ({
            let n = (num_const - 1) as nat;
            let cols = (num_var - 1) as nat;
            &&& r.0.wf()
            &&& r.1.wf()
            &&& r.2.wf()
            &&& rows_shaped(r.0.fourcoeffs@, n, cols, sparsity as nat)
            &&& rows_shaped(r.1.fourcoeffs@, n, cols, sparsity as nat)
            &&& rows_shaped(r.2.fourcoeffs@, n, cols, sparsity as nat)
            &&& r.0.rows() == drawn_rows(a_draws@, n, sparsity as nat)
            &&& r.1.rows() == drawn_rows(b_draws@, n, sparsity as nat)
            &&& r.2.rows() == drawn_rows(c_draws@, n, sparsity as nat)
        }),
        r.3@.len() == num_const,
        vals(r.3@) == with_public(F::modulus(), vals(r.5.evals@), vals(r.7@)),
        r.4.wf(),
        vals(r.4.evals@) == relaxed_error(
            F::modulus(),
            r.0.rows(),
            r.1.rows(),
            r.2.rows(),
            u.value(),
            vals(r.3@),
        ),
        relation_holds(
            F::modulus(),
            r.0.rows(),
            r.1.rows(),
            r.2.rows(),
            u.value(),
            vals(r.3@),
            vals(r.4.evals@),
        ),
        r.5.wf(),
        r.5.evals@ == Seq::new(num_const as nat, |i: int| w),
        r.6 == u,
        r.7@ == Seq::new(num_pi as nat, |i: int| pi),
{
    let a = rows_from_draws(num_const - 1, num_var - 1, sparsity, a_draws);
    let b = rows_from_draws(num_const - 1, num_var - 1, sparsity, b_draws);
    let c = rows_from_draws(num_const - 1, num_var - 1, sparsity, c_draws);
    let witness = repeat_element(w, num_const);
    let public = repeat_element(pi, num_pi);
    assert(witness@ =~= Seq::new(num_const as nat, |i: int| w));
    assert(public@ =~= Seq::new(num_pi as nat, |i: int| pi));
    let r = satisfied_system(a, b, c, witness, u, public);
    proof {
        let n = (num_const - 1) as nat;
        lemma_drawn_rows(r.0, a_draws@, n, sparsity as nat);
        lemma_drawn_rows(r.1, b_draws@, n, sparsity as nat);
        lemma_drawn_rows(r.2, c_draws@, n, sparsity as nat);
        assert(vals(r.3@).len() == r.3@.len());
    }
    r
}

/// The columns of a matrix, from those of its entries.
proof fn lemma_columns<F: PrimeField>(m: SparseRep<F>, n: nat)
    requires
        m.wf(),
        forall|i: usize, k: int|
            #![trigger m.fourcoeffs@[i]@[k]]
            m.fourcoeffs@.contains_key(i) && 0 <= k < m.fourcoeffs@[i]@.len()
                ==> m.fourcoeffs@[i]@[k].column < n,
    ensures
        columns_below(m.rows(), n as int),
{
    let rows = m.rows();
    assert forall|i: int, k: int|
        #![trigger rows[i][k]]
        0 <= i < rows.len() && 0 <= k < rows[i].len() implies 0 <= rows[i][k].0 < n by {
        let j = i as usize;
        assert(m.fourcoeffs@.contains_key(j));
        assert(rows[i][k].0 == m.fourcoeffs@[j]@[k].column);
    }
}

/// A vector with the public input added to its first entries.
fn add_public<F: PrimeField>(w: &Vec<F>, pi: &Vec<F>) -> (r: Vec<F>)
    ensures
        vals(r@) == with_public(F::modulus(), vals(w@), vals(pi@)),
        r@.len() == w@.len(),
{
    let mut r: Vec<F> = Vec::new();
    let mut i: usize = 0;
    while i < w.len()
        invariant
            i <= w@.len(),
            r@.len() == i,
            forall|j: int|
                0 <= j < i ==> (#[trigger] r@[j]).value() == with_public(
                    F::modulus(),
                    vals(w@),
                    vals(pi@),
                )[j],
        decreases w@.len() - i,
    {
        if i < pi.len() {
            r.push(w[i].add(pi[i]));
        } else {
            r.push(w[i]);
        }
        i += 1;
    }
    assert(vals(r@) =~= with_public(F::modulus(), vals(w@), vals(pi@)));
    r
}

/// The error that makes every constraint hold, from the products of the matrices with the vector.
fn error_vector<F: PrimeField>(az: &Vec<F>, bz: &Vec<F>, cz: &Vec<F>, u: F) -> (r: Vec<F>)
    requires
        bz@.len() == az@.len(),
        cz@.len() == az@.len(),
    ensures
        r@.len() == az@.len(),
        forall|i: int|
            0 <= i < az@.len() ==> (#[trigger] r@[i]).value() == (az@[i].value() * bz@[i].value()
                - u.value() * cz@[i].value()) % F::modulus(),
{
    let mut r: Vec<F> = Vec::new();
    let mut i: usize = 0;
    while i < az.len()
        invariant
            i <= az@.len(),
            bz@.len() == az@.len(),
            cz@.len() == az@.len(),
            r@.len() == i,
            forall|j: int|
                0 <= j < i ==> (#[trigger] r@[j]).value() == (az@[j].value() * bz@[j].value()
                    - u.value() * cz@[j].value()) % F::modulus(),
        decreases az@.len() - i,
    {
        let x = az[i].mul(bz[i]);
        let y = u.mul(cz[i]);
        let e = x.sub(y);
        proof {
            F::lemma_modulus();
            let p = F::modulus();
            let (s, t) = (az@[i as int].value() * bz@[i as int].value(), u.value() * cz@[i as int].value());
            lemma_cong_mod(p, s);
            lemma_cong_mod(p, t);
            lemma_cong_sub(p, x.value(), s, y.value(), t);
        }
        r.push(e);
        i += 1;
    }
    r
}

/// The roots of the commitments to a constraint system: the error, the witness, and the descriptions
/// of the three matrices.
pub open spec fn er1cs_roots<F: PrimeField, H: HashFunction>(
    p: int,
    s: Scheme,
    e: Seq<int>,
    w: Seq<int>,
    m: Seq<Meta>,
) -> Seq<Output> {
    seq![root_of::<F, H>(p, s, e), root_of::<F, H>(p, s, w)] + meta_roots::<F, H>(p, s, m[0])
        + meta_roots::<F, H>(p, s, m[1]) + meta_roots::<F, H>(p, s, m[2])
}

/// The tables with an entry for each entry of a matrix: those of each kind for the three matrices.
pub open spec fn entry_parts(m: Seq<Meta>) -> Seq<Seq<int>> {
    seq![
        m[0].row,
        m[1].row,
        m[2].row,
        m[0].col,
        m[1].col,
        m[2].col,
        m[0].val,
        m[1].val,
        m[2].val,
        m[0].read_row,
        m[1].read_row,
        m[2].read_row,
        m[0].read_col,
        m[1].read_col,
        m[2].read_col,
    ]
}

/// The tables with an entry for each row or column: the times that are left for the three matrices,
/// the error and the witness.
pub open spec fn row_parts(m: Seq<Meta>, e: Seq<int>, w: Seq<int>) -> Seq<Seq<int>> {
    seq![
        m[0].final_row,
        m[1].final_row,
        m[2].final_row,
        m[0].final_col,
        m[1].final_col,
        m[2].final_col,
        e,
        w,
    ]
}

/// A matrix whose description can be committed to with `num_vars` variables.
pub open spec fn matrix_commits<F: PrimeField>(m: SparseRep<F>, n_cols: nat, num_vars: nat) -> bool {
    &&& m.wf()
    &&& entries_fit(m.rows(), n_cols)
    &&& ceil_log2(all_entries(m.rows()).len()) <= num_vars
    &&& ceil_log2(larger(m.rows().len(), n_cols)) <= num_vars
}

/// Digests that are sent one after the other.
proof fn lemma_commit_concat(tx: Tx, a: Seq<Output>, b: Seq<Output>)
    ensures
        tx.commit_all(a + b) == tx.commit_all(a).commit_all(b),
    decreases b.len(),
{
    if b.len() == 0 {
        assert(a + b =~= a);
    } else {
        lemma_commit_concat(tx, a, b.drop_last());
        assert((a + b).drop_last() =~= a + b.drop_last());
        assert((a + b).last() == b.last());
    }
}

/// The description of a matrix and the commitments to it.
fn commit_matrix<F: PrimeField, H: HashFunction, S: BrakingbaseSpec, T: TranscriptWrite<F>>(
    m: &SparseRep<F>,
    n_cols: usize,
    pp: &BrakingbaseProverParams<F>,
    transcript: &mut T,
) -> (r: (SparseMetaData<F>, Vec<BrakingbaseCommitment<F>>))
    requires
        pp.wf::<H>(),
        matrix_commits(*m, n_cols as nat, pp.num_vars as nat),
    ensures
        r.0.wf(),
        r.0.meta() == meta_of(F::modulus(), m.rows(), n_cols as nat),
        are_commitments::<F, H>(r.1@, *pp, meta_parts(r.0.meta())),
        final(transcript).tx() == old(transcript).tx().commit_all(
            meta_roots::<F, H>(F::modulus(), pp.scheme(), r.0.meta()),
        ),
{
    let metadata = m.get_metadata(n_cols);
    proof {
        let d = metadata;
        let x = ceil_log2(all_entries(m.rows()).len());
        let y = ceil_log2(larger(m.rows().len(), n_cols as nat));
        assert(tuples_of(m.rows(), n_cols as nat).len() == two_to(x));
        assert(dim_of(m.rows().len(), n_cols as nat) == two_to(y));
        assert(d.meta().row.len() == two_to(x));
        assert(d.meta().read_row.len() == two_to(x));
        assert(d.meta().final_row.len() == two_to(y));
        lemma_log2_two_to(x);
        lemma_log2_two_to(y);
        lemma_log2_two_to(d.row.num_vars as nat);
        lemma_log2_two_to(d.col.num_vars as nat);
        lemma_log2_two_to(d.val.num_vars as nat);
        lemma_log2_two_to(d.timestamps.read_ts_row.num_vars as nat);
        lemma_log2_two_to(d.timestamps.read_ts_col.num_vars as nat);
        lemma_log2_two_to(d.timestamps.final_ts_row.num_vars as nat);
        lemma_log2_two_to(d.timestamps.final_ts_col.num_vars as nat);
        assert(vals(d.row.evals@).len() == d.row.evals@.len());
        assert(vals(d.col.evals@).len() == d.col.evals@.len());
        assert(vals(d.val.evals@).len() == d.val.evals@.len());
        assert(vals(d.timestamps.read_ts_row.evals@).len() == d.timestamps.read_ts_row.evals@.len());
        assert(vals(d.timestamps.read_ts_col.evals@).len() == d.timestamps.read_ts_col.evals@.len());
        assert(vals(d.timestamps.final_ts_row.evals@).len() == d.timestamps.final_ts_row.evals@.len());
        assert(vals(d.timestamps.final_ts_col.evals@).len() == d.timestamps.final_ts_col.evals@.len());
    }
    let commitments = metadata.commit::<H, S, T>(pp, transcript);
    (metadata, commitments)
}

/// Takes the last of several commitments out.
fn take_last<F: PrimeField>(v: &mut Vec<BrakingbaseCommitment<F>>) -> (r: BrakingbaseCommitment<F>)
    requires
        old(v)@.len() >= 1,
    ensures
        r == old(v)@.last(),
        final(v)@ == old(v)@.drop_last(),
{
    v.pop().unwrap()
}

/// Commits to a constraint system, and gives the descriptions of its matrices, the commitments to the
/// tables with an entry for each entry of a matrix, and those to the tables with an entry for each row
/// or column.
#[allow(non_snake_case)]
#[verifier::rlimit(60)]
pub fn er1cs_commit<F: PrimeField, H: HashFunction, S: BrakingbaseSpec, T: TranscriptWrite<F>>(
    A: &SparseRep<F>,
    B: &SparseRep<F>,
    C: &SparseRep<F>,
    E: &MultilinearPolynomial<F>,
    W: &MultilinearPolynomial<F>,
    pp: &BrakingbaseProverParams<F>,
    sparsity: usize,
    transcript: &mut T,
) -> (r: (
    eR1CSmetadata<F>,
    Vec<BrakingbaseCommitment<F>>,
    Vec<BrakingbaseCommitment<F>>,
))
    requires
        pp.wf::<H>(),
        matrix_commits(*A, sparsity as nat, pp.num_vars as nat),
        matrix_commits(*B, sparsity as nat, pp.num_vars as nat),
        matrix_commits(*C, sparsity as nat, pp.num_vars as nat),
        E.wf(),
        W.wf(),
        E.num_vars <= pp.num_vars,
        W.num_vars <= pp.num_vars,
    ensures
        ({
            let p = F::modulus();
            let m = seq![
                meta_of(p, A.rows(), sparsity as nat),
                meta_of(p, B.rows(), sparsity as nat),
                meta_of(p, C.rows(), sparsity as nat),
            ];
            let (e, w) = (vals(E.evals@), vals(W.evals@));
            &&& r.0.A.wf()
            &&& r.0.B.wf()
            &&& r.0.C.wf()
            &&& r.0.A.meta() == m[0]
            &&& r.0.B.meta() == m[1]
            &&& r.0.C.meta() == m[2]
            &&& are_commitments::<F, H>(r.1@, *pp, entry_parts(m))
            &&& are_commitments::<F, H>(r.2@, *pp, row_parts(m, e, w))
            &&& final(transcript).tx() == old(transcript).tx().commit_all(
                er1cs_roots::<F, H>(p, pp.scheme(), e, w, m),
            )
        }),
{
    let ghost p = F::modulus();
    let ghost s = pp.scheme();
    let ghost tx = transcript.tx();
    let ghost (e, w) = (vals(E.evals@), vals(W.evals@));
    let E_commit = send_commitment::<F, H, S, T>(pp, E, transcript);
    let W_commit = send_commitment::<F, H, S, T>(pp, W, transcript);
    let ghost two = seq![root_of::<F, H>(p, s, e), root_of::<F, H>(p, s, w)];
    proof {
        let one = seq![root_of::<F, H>(p, s, e)];
        assert(two.drop_last() =~= one);
        assert(one.drop_last() =~= Seq::<Output>::empty());
        assert(tx.commit_all(Seq::<Output>::empty()) == tx);
        assert(tx.commit_all(one) == tx.commit(one[0]));
        assert(tx.commit_all(two) == tx.commit_all(one).commit(two[1]));
    }
    let (A_metadata, mut a) = commit_matrix::<F, H, S, T>(A, sparsity, pp, transcript);
    let (B_metadata, mut b) = commit_matrix::<F, H, S, T>(B, sparsity, pp, transcript);
    let (C_metadata, mut c) = commit_matrix::<F, H, S, T>(C, sparsity, pp, transcript);
    let ghost m = seq![A_metadata.meta(), B_metadata.meta(), C_metadata.meta()];
    let ghost (a0, b0, c0) = (a@, b@, c@);
    proof {
        let (ra, rb, rc) = (
            meta_roots::<F, H>(p, s, m[0]),
            meta_roots::<F, H>(p, s, m[1]),
            meta_roots::<F, H>(p, s, m[2]),
        );
        lemma_commit_concat(tx, two, ra);
        lemma_commit_concat(tx, two + ra, rb);
        lemma_commit_concat(tx, two + ra + rb, rc);
        assert(a0.len() == 7);
        assert(b0.len() == 7);
        assert(c0.len() == 7);
    }
    let A_final_ts_col_commit = take_last(&mut a);
    let A_final_ts_row_commit = take_last(&mut a);
    let A_read_ts_col_commit = take_last(&mut a);
    let A_read_ts_row_commit = take_last(&mut a);
    let A_val_commit = take_last(&mut a);
    let A_col_commit = take_last(&mut a);
    let A_row_commit = take_last(&mut a);
    let B_final_ts_col_commit = take_last(&mut b);
    let B_final_ts_row_commit = take_last(&mut b);
    let B_read_ts_col_commit = take_last(&mut b);
    let B_read_ts_row_commit = take_last(&mut b);
    let B_val_commit = take_last(&mut b);
    let B_col_commit = take_last(&mut b);
    let B_row_commit = take_last(&mut b);
    let C_final_ts_col_commit = take_last(&mut c);
    let C_final_ts_row_commit = take_last(&mut c);
    let C_read_ts_col_commit = take_last(&mut c);
    let C_read_ts_row_commit = take_last(&mut c);
    let C_val_commit = take_last(&mut c);
    let C_col_commit = take_last(&mut c);
    let C_row_commit = take_last(&mut c);
    let mut commit1: Vec<BrakingbaseCommitment<F>> = Vec::new();
    commit1.push(A_row_commit);
    commit1.push(B_row_commit);
    commit1.push(C_row_commit);
    commit1.push(A_col_commit);
    commit1.push(B_col_commit);
    commit1.push(C_col_commit);
    commit1.push(A_val_commit);
    commit1.push(B_val_commit);
    commit1.push(C_val_commit);
    commit1.push(A_read_ts_row_commit);
    commit1.push(B_read_ts_row_commit);
    commit1.push(C_read_ts_row_commit);
    commit1.push(A_read_ts_col_commit);
    commit1.push(B_read_ts_col_commit);
    commit1.push(C_read_ts_col_commit);
    let mut commit2: Vec<BrakingbaseCommitment<F>> = Vec::new();
    commit2.push(A_final_ts_row_commit);
    commit2.push(B_final_ts_row_commit);
    commit2.push(C_final_ts_row_commit);
    commit2.push(A_final_ts_col_commit);
    commit2.push(B_final_ts_col_commit);
    commit2.push(C_final_ts_col_commit);
    commit2.push(E_commit);
    commit2.push(W_commit);
    proof {
        let n = pp.brakedown.codeword_len as nat;
        assert forall|i: int| 0 <= i < 15 implies is_commitment::<F, H>(
            #[trigger] commit1@[i],
            committed_rows(p, s, entry_parts(m)[i]),
            n,
        ) by {
            let q = i / 3;
            assert(is_commitment::<F, H>(a0[q], committed_rows(p, s, meta_parts(m[0])[q]), n));
            assert(is_commitment::<F, H>(b0[q], committed_rows(p, s, meta_parts(m[1])[q]), n));
            assert(is_commitment::<F, H>(c0[q], committed_rows(p, s, meta_parts(m[2])[q]), n));
            assert(i == 0 || i == 1 || i == 2 || i == 3 || i == 4 || i == 5 || i == 6 || i == 7 || i
                == 8 || i == 9 || i == 10 || i == 11 || i == 12 || i == 13 || i == 14);
        }
        assert forall|i: int| 0 <= i < 8 implies is_commitment::<F, H>(
            #[trigger] commit2@[i],
            committed_rows(p, s, row_parts(m, e, w)[i]),
            n,
        ) by {
            let q = 5 + i / 3;
            if i < 6 {
                assert(is_commitment::<F, H>(a0[q], committed_rows(p, s, meta_parts(m[0])[q]), n));
                assert(is_commitment::<F, H>(b0[q], committed_rows(p, s, meta_parts(m[1])[q]), n));
                assert(is_commitment::<F, H>(c0[q], committed_rows(p, s, meta_parts(m[2])[q]), n));
            }
            assert(i == 0 || i == 1 || i == 2 || i == 3 || i == 4 || i == 5 || i == 6 || i == 7);
        }
    }
    (eR1CSmetadata::new(A_metadata, B_metadata, C_metadata), commit1, commit2)
}

} // verus!
