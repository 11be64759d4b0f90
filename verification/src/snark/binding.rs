//! What the commitments of the proof system bind to, and what the products with its matrices are.
use vstd::prelude::*;
use crate::algebra::{canonical, cong, lemma_cong_add, lemma_cong_mod, two_to};
use crate::binding::{commitments_collide, law_commitment_binding};
use crate::brakingbase::{Scheme, root_of, scheme_fits};
use crate::field::PrimeField;
use crate::hash::HashFunction;
use crate::snark::batcheval::{Tables, commit_reads};
use crate::snark::er1cs::{drawn_rows, er1cs_roots};
use crate::snark::helper::{Meta, SparseRep, entries, matrix_product, meta_roots, row_product};
use crate::soundness::law_digests_sent;
use crate::sums::{lemma_sum_add, lemma_sum_ext, sum_of};
use crate::transcript::{Event, Tx};

verus! {

/// The seven tables that describe a matrix.
pub open spec fn described_by(m: Meta, i: int) -> Seq<int> {
    if i == 0 {
        m.row
    } else if i == 1 {
        m.col
    } else if i == 2 {
        m.val
    } else if i == 3 {
        m.read_row
    } else if i == 4 {
        m.read_col
    } else if i == 5 {
        m.final_row
    } else {
        m.final_col
    }
}

/// All tables of a constraint system: the error, the witness, and the seven of each matrix.
pub open spec fn system_table(e: Seq<int>, w: Seq<int>, m: Seq<Meta>, i: int) -> Seq<int> {
    if i == 0 {
        e
    } else if i == 1 {
        w
    } else {
        described_by(m[(i - 2) / 7], (i - 2) % 7)
    }
}

/// The commitment to a constraint system has a root for each of its tables and binds to all of them:
/// two systems with the same roots have the same tables, or two messages that were hashed for two
/// of them collide.
pub proof fn law_system_binding<F: PrimeField, H: HashFunction>(
    s: Scheme,
    e: Seq<int>,
    w: Seq<int>,
    m: Seq<Meta>,
    f: Seq<int>,
    x: Seq<int>,
    n: Seq<Meta>,
    i: int,
)
    requires
        scheme_fits(s),
        0 <= i < 23,
        system_table(e, w, m, i).len() == system_table(f, x, n, i).len(),
        system_table(e, w, m, i).len() <= two_to(s.num_vars),
        canonical(F::modulus(), system_table(e, w, m, i)),
        canonical(F::modulus(), system_table(f, x, n, i)),
        er1cs_roots::<F, H>(F::modulus(), s, e, w, m) == er1cs_roots::<F, H>(
            F::modulus(),
            s,
            f,
            x,
            n,
        ),
    ensures
        er1cs_roots::<F, H>(F::modulus(), s, e, w, m).len() == 23,
        system_table(e, w, m, i) == system_table(f, x, n, i) || commitments_collide::<F, H>(
            s,
            system_table(e, w, m, i),
            system_table(f, x, n, i),
        ),
{
    lemma_system_root::<F, H>(s, e, w, m, i);
    lemma_system_root::<F, H>(s, f, x, n, i);
    law_commitment_binding::<F, H>(s, system_table(e, w, m, i), system_table(f, x, n, i));
}

proof fn lemma_system_root<F: PrimeField, H: HashFunction>(
    s: Scheme,
    e: Seq<int>,
    w: Seq<int>,
    m: Seq<Meta>,
    i: int,
)
    requires
        0 <= i < 23,
    ensures
        er1cs_roots::<F, H>(F::modulus(), s, e, w, m).len() == 23,
        er1cs_roots::<F, H>(F::modulus(), s, e, w, m)[i] == root_of::<F, H>(
            F::modulus(),
            s,
            system_table(e, w, m, i),
        ),
{
    let p = F::modulus();
    let r = er1cs_roots::<F, H>(p, s, e, w, m);
    assert(r.len() == 23);
    if i >= 2 {
        let (c, k) = ((i - 2) / 7, (i - 2) % 7);
        let q = meta_roots::<F, H>(p, s, m[c]);
        assert(c == 0 || c == 1 || c == 2);
        assert(r[i] == q[k]);
        assert(k == 0 || k == 1 || k == 2 || k == 3 || k == 4 || k == 5 || k == 6);
    }
}

/// The roots that are sent for what was read, one for each table, bind to the tables.
pub proof fn law_reads_binding<F: PrimeField, H: HashFunction>(
    s: Scheme,
    tx: Tx,
    t: Tables,
    u: Tables,
    i: int,
)
    requires
        scheme_fits(s),
        t.e_rx.len() == u.e_rx.len(),
        t.e_ry.len() == u.e_ry.len(),
        0 <= i < t.e_rx.len() + t.e_ry.len(),
        (t.e_rx + t.e_ry)[i].len() == (u.e_rx + u.e_ry)[i].len(),
        (t.e_rx + t.e_ry)[i].len() <= two_to(s.num_vars),
        canonical(F::modulus(), (t.e_rx + t.e_ry)[i]),
        canonical(F::modulus(), (u.e_rx + u.e_ry)[i]),
        commit_reads::<F, H>(F::modulus(), s, tx, t).proof == commit_reads::<F, H>(
            F::modulus(),
            s,
            tx,
            u,
        ).proof,
    ensures
        ({
            let (a, b) = ((t.e_rx + t.e_ry)[i], (u.e_rx + u.e_ry)[i]);
            a == b || commitments_collide::<F, H>(s, a, b)
        }),
{
    let p = F::modulus();
    let (a, b) = (t.e_rx + t.e_ry, u.e_rx + u.e_ry);
    let x = Seq::new(a.len(), |i: int| root_of::<F, H>(p, s, a[i]));
    let y = Seq::new(b.len(), |i: int| root_of::<F, H>(p, s, b[i]));
    law_digests_sent(tx, x);
    law_digests_sent(tx, y);
    let k = tx.proof.len() + i;
    let (v, w) = (
        commit_reads::<F, H>(p, s, tx, t).proof,
        commit_reads::<F, H>(p, s, tx, u).proof,
    );
    assert(v[k] == Event::Commitment(x[i]));
    assert(w[k] == Event::Commitment(y[i]));
    law_commitment_binding::<F, H>(s, a[i], b[i]);
}

/// The product of a matrix with a unit vector is a column of the matrix: of every row, the sum of
/// its entries there.
pub proof fn law_product_unit(p: int, rows: Seq<Seq<(int, int)>>, n: nat, j: int, i: int)
    requires
        p > 0,
        0 <= j < n,
        0 <= i < n,
        i < rows.len() ==> forall|k: int|
            0 <= k < rows[i].len() ==> 0 <= (#[trigger] rows[i][k]).0 < n,
    ensures
        ({
            let z = Seq::new(n, |k: int| if k == j { 1int } else { 0 });
            matrix_product(p, rows, z)[i] == (if i < rows.len() {
                sum_of(
                    rows[i].len(),
                    |k: int|
                        if rows[i][k].0 == j {
                            rows[i][k].1
                        } else {
                            0
                        },
                ) % p
            } else {
                0
            })
        }),
{
    let z = Seq::new(n, |k: int| if k == j { 1int } else { 0 });
    if i < rows.len() {
        let row = rows[i];
        let f = |k: int| z[row[k].0] * row[k].1;
        let g = |k: int|
            if row[k].0 == j {
                row[k].1
            } else {
                0
            };
        assert forall|k: int| 0 <= k < row.len() implies #[trigger] f(k) == g(k) by {
            assert(0 <= row[k].0 < n);
            let v = row[k].1;
            assert(1 * v == v && 0 * v == 0);
        }
        lemma_sum_ext(row.len(), f, g);
        lemma_sum_ext(
            row.len(),
            g,
            |k: int|
                if rows[i][k].0 == j {
                    rows[i][k].1
                } else {
                    0
                },
        );
    }
}

/// The product of a matrix with a sum of vectors, the second weighed, is the sum of the products.
pub proof fn law_product_linear(
    p: int,
    rows: Seq<Seq<(int, int)>>,
    x: Seq<int>,
    y: Seq<int>,
    c: int,
    i: int,
)
    requires
        p > 0,
        x.len() == y.len(),
        0 <= i < x.len(),
        i < rows.len() ==> forall|k: int|
            0 <= k < rows[i].len() ==> 0 <= (#[trigger] rows[i][k]).0 < x.len(),
    ensures
        ({
            let z = Seq::new(x.len(), |k: int| x[k] + c * y[k]);
            cong(
                p,
                matrix_product(p, rows, z)[i],
                matrix_product(p, rows, x)[i] + c * matrix_product(p, rows, y)[i],
            )
        }),
{
    let z = Seq::new(x.len(), |k: int| x[k] + c * y[k]);
    if i < rows.len() {
        let row = rows[i];
        let n = row.len();
        let f = |k: int| x[row[k].0] * row[k].1;
        let g = |k: int| y[row[k].0] * row[k].1;
        let h = |k: int| z[row[k].0] * row[k].1;
        let (a, b) = (Seq::new(n, f), Seq::new(n, g));
        let d = Seq::new(n, |k: int| c * b[k]);
        crate::sums::lemma_sum_scale(c, b);
        lemma_sum_add(a, d);
        assert(Seq::new(n, h) =~= Seq::new(n, |k: int| a[k] + d[k])) by {
            assert forall|k: int| 0 <= k < n implies Seq::new(n, h)[k] == a[k] + d[k] by {
                assert(0 <= row[k].0 < x.len());
                let (s, t, v) = (x[row[k].0], y[row[k].0], row[k].1);
                assert((s + c * t) * v == s * v + c * (t * v)) by (nonlinear_arith);
            }
        }
        let (u, v, w) = (row_product(row, x), row_product(row, y), row_product(row, z));
        assert(w == u + c * v);
        lemma_cong_mod(p, u);
        lemma_cong_mod(p, v);
        lemma_cong_mod(p, w);
        crate::algebra::lemma_cong_mul(p, c, c, v % p, v);
        lemma_cong_add(p, u % p, u, c * (v % p), c * v);
    } else {
        assert(c * 0 == 0);
    }
}

/// The rows of a matrix hold every entry of the map, in its order, and nothing else.
pub proof fn law_rows_kept<F: PrimeField>(m: SparseRep<F>, i: usize)
    requires
        m.wf(),
        m.fourcoeffs@.contains_key(i),
    ensures
        i < m.rows().len(),
        m.rows()[i as int].len() == m.fourcoeffs@[i]@.len(),
        forall|k: int|
            0 <= k < m.fourcoeffs@[i]@.len() ==> #[trigger] m.rows()[i as int][k] == (
                m.fourcoeffs@[i]@[k].column as int,
                m.fourcoeffs@[i]@[k].value.value(),
            ),
        m.rows_below(m.rows().len()) == m.rows(),
{
    let n = m.rows().len();
    assert forall|j: int| 0 <= j < n implies m.rows_below(n)[j] == m.rows()[j] by {
        assert(m.fourcoeffs@.contains_key(j as usize));
    }
    assert(m.rows_below(n) =~= m.rows());
}

/// The list of all entries of the first `n` rows: those of a row stand together, after those of the
/// rows before, and none is left out.
pub proof fn law_entries_listed(rows: Seq<Seq<(int, int)>>, n: nat, i: int, k: int)
    requires
        0 <= i < n <= rows.len(),
        0 <= k < rows[i].len(),
    ensures
        entries(rows, n).len() == sum_of(n, |j: int| rows[j].len() as int),
        ({
            let at = sum_of(i as nat, |j: int| rows[j].len() as int) + k;
            &&& 0 <= at < entries(rows, n).len()
            &&& entries(rows, n)[at] == (i, rows[i][k].0, rows[i][k].1)
        }),
    decreases n,
{
    let f = |j: int| rows[j].len() as int;
    lemma_entries_len(rows, i as nat);
    lemma_entries_len(rows, (n - 1) as nat);
    lemma_entries_len(rows, n);
    if i < n - 1 {
        law_entries_listed(rows, (n - 1) as nat, i, k);
    }
}

proof fn lemma_entries_len(rows: Seq<Seq<(int, int)>>, n: nat)
    requires
        n <= rows.len(),
    ensures
        entries(rows, n).len() == sum_of(n, |j: int| rows[j].len() as int),
    decreases n,
{
    let f = |j: int| rows[j].len() as int;
    if n > 0 {
        lemma_entries_len(rows, (n - 1) as nat);
        crate::sums::lemma_sum_step((n - 1) as nat, f);
    } else {
        crate::sums::lemma_sum_step(0, f);
    }
}

/// The rows that are made of draws use every draw, in the order of the draws.
pub proof fn law_draws_used<F: PrimeField>(draws: Seq<(usize, F)>, n: nat, sparsity: nat, j: int)
    requires
        sparsity >= 1,
        draws.len() == n * sparsity,
        0 <= j < draws.len(),
    ensures
        drawn_rows(draws, n, sparsity).len() == n,
        0 <= j / (sparsity as int) < n,
        drawn_rows(draws, n, sparsity)[j / (sparsity as int)].len() == sparsity,
        drawn_rows(draws, n, sparsity)[j / (sparsity as int)][j % (sparsity as int)] == (
            draws[j].0 as int,
            draws[j].1.value(),
        ),
{
    let m = sparsity as int;
    let (i, k) = (j / m, j % m);
    vstd::arithmetic::div_mod::lemma_fundamental_div_mod(j, m);
    assert(i * m == m * i) by (nonlinear_arith);
    assert(0 <= i < n) by (nonlinear_arith)
        requires
            m >= 1,
            0 <= j < n * m,
            j == m * i + k,
            0 <= k < m,
    ;
}

} // verus!
