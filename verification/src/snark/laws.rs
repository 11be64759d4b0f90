//! A proof that was made as it should is accepted: the sum-checks for the constraints and the matrices.
use vstd::prelude::*;
use crate::algebra::{
    canonical, cong, lemma_cong_add, lemma_cong_mod, lemma_cong_mul, lemma_cong_sub,
    lemma_mod_canonical, lemma_mod_small, two_to,
};
use crate::bits::lemma_log2_two_to;
use crate::brakingbase_complete::lemma_basis_reduced;
use crate::brakingbase_laws::{field_fits, lemma_basis_value, lemma_sum_prefix};
use crate::error::Error;
use crate::evaluations::{gathered, lemma_dot_sum, lemma_gathered_sum, lemma_rounds_end, mles};
use crate::multilinear::{basis, eq_points, eq_table, lemma_mle_cong, mle, tensor};
use crate::rounds::{
    Comb, Shape, all_canonical, check_rounds, has_degree, law_sum_check_complete,
    law_wrong_claim_refused, lemma_rounds_grow, prove_rounds, respects, row, total, uniform,
};
use crate::snark::batcheval::{lemma_tables_fit, looked_up, meta_fits, metas_fit, tables_of};
use crate::snark::er1cs::relation_holds;
use crate::snark::helper::{
    Meta, all_entries, bound_rows, columns_below, entries, entry_sum, lemma_entry_row,
    lemma_entry_sum_row, matrix_product, row_product,
};
use crate::snark::sum_check::{
    check_initial, check_matrix, check_parallel, first_layer, lemma_relation_comb,
    lemma_triples_comb, lemma_weighted_comb, matrix_eval, parallel, pi_value, relation_comb,
    triples_comb, weighed_products, weighed_three, weighted_comb,
};
use crate::sum_checks::{cubic_shape, quadratic_shape};
use crate::sums::{
    dot, lemma_sum_add, lemma_sum_ext, lemma_sum_factor, lemma_sum_of_cong, lemma_sum_step,
    lemma_sum_zero, sum_of,
};
use crate::transcript::{
    Check, Event, Oracle, Tx, challenges, extends, law_read_all_written, law_read_written,
    law_same_challenges, lemma_challenges_canonical, lemma_prefix_push, lemma_prefix_trans,
    lemma_squeeze_many_hist, lemma_write_all_extends, synced,
};

verus! {

/// A sum-check and the elements that are sent after it are read as they were sent.
pub proof fn lemma_stage(
    sh: Shape,
    comb: Comb,
    tx: Tx,
    ts: Seq<Seq<int>>,
    vars: nat,
    sent: Seq<int>,
    full: Seq<Event>,
    check: Check,
    claim: int,
)
    requires
        sh.valid(),
        ts.len() > 0,
        has_degree(comb, ts.len(), sh.degree),
        respects(sh.p, comb, ts.len()),
        uniform(ts, two_to(vars)),
        all_canonical(sh.p, ts),
        claim == total(comb, ts) % sh.p,
        synced(tx, full, check),
        prove_rounds(sh, comb, tx, ts, vars).tx.write_all(sent).proof.is_prefix_of(full),
    ensures
        ({
            let r = prove_rounds(sh, comb, tx, ts, vars);
            let v = check_rounds(sh, check, claim, vars);
            let (c, e) = v.check.read_many(sent.len());
            &&& synced(r.tx.write_all(sent), full, c)
            &&& e == sent
            &&& v.point == r.point
            &&& cong(sh.p, v.claim, comb(mles(sh.p, ts, r.point)))
        }),
{
    let r = prove_rounds(sh, comb, tx, ts, vars);
    lemma_rounds_end(sh, comb, tx, ts, vars);
    lemma_write_all_extends(r.tx, sent);
    lemma_prefix_trans(r.tx.proof, r.tx.write_all(sent).proof, full);
    law_sum_check_complete(sh, comb, tx, ts, vars, vars, full, check, claim);
    let v = check_rounds(sh, check, claim, vars);
    law_read_all_written(r.tx, full, v.check, sent);
    lemma_cong_mod(sh.p, comb(mles(sh.p, ts, r.point)));
}

/// What a sum-check and the elements that are sent after it leave.
pub proof fn lemma_stage_extends(
    sh: Shape,
    comb: Comb,
    tx: Tx,
    ts: Seq<Seq<int>>,
    vars: nat,
    sent: Seq<int>,
)
    requires
        sh.valid(),
        ts.len() > 0,
        uniform(ts, two_to(vars)),
        all_canonical(sh.p, ts),
    ensures
        ({
            let r = prove_rounds(sh, comb, tx, ts, vars);
            &&& extends(tx, r.tx.write_all(sent))
            &&& r.point.len() == vars
            &&& canonical(sh.p, r.point)
            &&& r.tables.len() == ts.len()
            &&& forall|i: int|
                0 <= i < ts.len() ==> (#[trigger] r.tables[i])[0] == mle(sh.p, ts[i], r.point)
        }),
{
    let r = prove_rounds(sh, comb, tx, ts, vars);
    lemma_rounds_end(sh, comb, tx, ts, vars);
    lemma_write_all_extends(r.tx, sent);
    lemma_prefix_trans(tx.proof, r.tx.proof, r.tx.write_all(sent).proof);
}

/// The rows of a matrix, multiplied with a vector and weighed, are the entries, weighed.
pub proof fn lemma_row_products(rows: Seq<Seq<(int, int)>>, w: Seq<int>, z: Seq<int>, n: nat)
    requires
        n <= rows.len(),
    ensures
        ({
            let e = all_entries(rows);
            sum_of(n, |i: int| w[i] * row_product(rows[i], z)) == sum_of(
                entries(rows, n).len(),
                |j: int| (w[e[j].0] * z[e[j].1]) * e[j].2,
            )
        }),
    decreases n,
{
    let e = all_entries(rows);
    let f = |i: int| w[i] * row_product(rows[i], z);
    let g = |j: int| (w[e[j].0] * z[e[j].1]) * e[j].2;
    if n == 0 {
        lemma_sum_step(0, f);
        lemma_sum_step(0, g);
    } else {
        let m = (n - 1) as nat;
        lemma_row_products(rows, w, z, m);
        lemma_sum_step(m, f);
        let r = rows[m as int];
        let h = |i: int, j: int| w[i] * z[j];
        lemma_entry_sum_row(rows, m, r.len(), h);
        let base = entries(rows, m).len();
        assert(entries(rows, n).len() == base + r.len());
        let g2 = |j: int| h(e[j].0, e[j].1) * e[j].2;
        lemma_sum_ext(base + r.len(), g, g2);
        lemma_sum_ext(base, g, g2);
        let x = |j: int| z[r[j].0] * r[j].1;
        let y = |j: int| h(m as int, r[j].0) * r[j].1;
        let wx = |j: int| w[m as int] * x(j);
        lemma_sum_factor(r.len(), w[m as int], x);
        assert forall|j: int| 0 <= j < r.len() implies #[trigger] wx(j) == y(j) by {
            let (a, b, c) = (w[m as int], z[r[j].0], r[j].1);
            assert(a * (b * c) == (a * b) * c) by (nonlinear_arith);
        }
        lemma_sum_ext(r.len(), wx, y);
        assert(row_product(r, z) == sum_of(r.len(), x));
    }
}

/// The value of a matrix at the tables of two points.
pub open spec fn matrix_value(rows: Seq<Seq<(int, int)>>, w: Seq<int>, z: Seq<int>) -> int {
    entry_sum(all_entries(rows), |i: int, j: int| w[i] * z[j])
}

/// The product of a matrix with a vector, weighed.
pub proof fn lemma_product_value(p: int, rows: Seq<Seq<(int, int)>>, w: Seq<int>, z: Seq<int>)
    requires
        p > 0,
        w.len() == z.len(),
        rows.len() <= z.len(),
    ensures
        cong(p, dot(matrix_product(p, rows, z), w), matrix_value(rows, w, z)),
{
    let n = z.len();
    let mp = matrix_product(p, rows, z);
    let e = all_entries(rows);
    lemma_dot_sum(mp, w, n);
    let f = |i: int| mp[i] * w[i];
    assert forall|i: int| rows.len() <= i < n implies #[trigger] f(i) == 0 by {
        assert(mp[i] == 0);
        assert(0 * w[i] == 0);
    }
    lemma_sum_prefix(n, rows.len(), f);
    let g = |i: int| w[i] * row_product(rows[i], z);
    assert forall|i: int| 0 <= i < rows.len() implies cong(p, #[trigger] f(i), g(i)) by {
        let x = row_product(rows[i], z);
        lemma_cong_mod(p, x);
        lemma_cong_mul(p, w[i], w[i], mp[i], x);
        assert(mp[i] * w[i] == w[i] * mp[i]) by (nonlinear_arith);
    }
    lemma_sum_of_cong(p, rows.len(), f, g);
    lemma_row_products(rows, w, z, rows.len());
    let a = |j: int| (w[e[j].0] * z[e[j].1]) * e[j].2;
    let h = |i: int, j: int| w[i] * z[j];
    let b = |j: int| h(e[j].0, e[j].1) * e[j].2;
    lemma_sum_ext(e.len(), a, b);
}

/// The entries of a matrix are where its rows and columns are.
pub proof fn lemma_entries_range(rows: Seq<Seq<(int, int)>>, n: nat)
    requires
        rows.len() <= n,
        columns_below(rows, n as int),
    ensures
        forall|k: int|
            0 <= k < all_entries(rows).len() ==> 0 <= (#[trigger] all_entries(rows)[k]).0 < n && 0
                <= all_entries(rows)[k].1 < n,
{
    let e = all_entries(rows);
    assert forall|k: int| 0 <= k < e.len() implies 0 <= (#[trigger] e[k]).0 < n && 0 <= e[k].1 < n by {
        lemma_entry_row(rows, rows.len(), k);
        let i = e[k].0;
        let j = choose|j: int| 0 <= j < rows[i].len() && #[trigger] rows[i][j] == (e[k].1, e[k].2);
        assert(0 <= rows[i][j].0 < n);
    }
}

/// A matrix with its rows weighed, multiplied with a vector.
pub proof fn lemma_bound_value(p: int, rows: Seq<Seq<(int, int)>>, w: Seq<int>, z: Seq<int>)
    requires
        p > 0,
        w.len() == z.len(),
        rows.len() <= z.len(),
        columns_below(rows, z.len() as int),
    ensures
        cong(p, dot(bound_rows(p, rows, w, z.len()), z), matrix_value(rows, w, z)),
{
    let n = z.len();
    let e = all_entries(rows);
    let b = bound_rows(p, rows, w, n);
    lemma_entries_range(rows, n);
    lemma_dot_sum(b, z, n);
    let idx = |k: int| e[k].1;
    let wt = |k: int| w[e[k].0] * e[k].2;
    let g = |c: int| z[c];
    let f = |c: int| b[c] * z[c];
    let f2 = |c: int| gathered(e.len(), idx, wt, c) * g(c);
    assert forall|c: int| 0 <= c < n implies cong(p, #[trigger] f(c), f2(c)) by {
        let pick = |i: int, j: int|
            if j == c {
                w[i]
            } else {
                0
            };
        let x = |k: int| pick(e[k].0, e[k].1) * e[k].2;
        let y = |k: int|
            if idx(k) == c {
                wt(k)
            } else {
                0int
            };
        assert forall|k: int| 0 <= k < e.len() implies #[trigger] x(k) == y(k) by {
            if e[k].1 != c {
                assert(0 * e[k].2 == 0);
            }
        }
        lemma_sum_ext(e.len(), x, y);
        assert(b[c] == entry_sum(e, pick) % p);
        lemma_cong_mod(p, entry_sum(e, pick));
        lemma_cong_mul(p, b[c], gathered(e.len(), idx, wt, c), z[c], z[c]);
    }
    lemma_sum_of_cong(p, n, f, f2);
    assert forall|k: int| 0 <= k < e.len() implies 0 <= #[trigger] idx(k) < n by {
        assert(0 <= e[k].1 < n);
    }
    lemma_gathered_sum(n, e.len(), idx, wt, g);
    let a = |k: int| wt(k) * g(idx(k));
    let h = |i: int, j: int| w[i] * z[j];
    let c = |j: int| h(e[j].0, e[j].1) * e[j].2;
    assert forall|k: int| 0 <= k < e.len() implies #[trigger] a(k) == c(k) by {
        let (x, y, t) = (w[e[k].0], e[k].2, z[e[k].1]);
        assert((x * y) * t == (x * t) * y) by (nonlinear_arith);
    }
    lemma_sum_ext(e.len(), a, c);
}

/// The product of a matrix with a vector is reduced.
pub proof fn lemma_product_reduced(p: int, rows: Seq<Seq<(int, int)>>, z: Seq<int>)
    requires
        p > 0,
    ensures
        canonical(p, matrix_product(p, rows, z)),
        matrix_product(p, rows, z).len() == z.len(),
{
    assert forall|i: int| 0 <= i < z.len() implies 0 <= #[trigger] matrix_product(p, rows, z)[i] < p by {
        lemma_mod_canonical(p, row_product(rows[i], z));
    }
}

/// A matrix with its rows weighed is reduced.
proof fn lemma_bound_reduced(p: int, rows: Seq<Seq<(int, int)>>, w: Seq<int>, n: nat)
    requires
        p > 0,
    ensures
        canonical(p, bound_rows(p, rows, w, n)),
        bound_rows(p, rows, w, n).len() == n,
{
    let b = bound_rows(p, rows, w, n);
    assert forall|c: int| 0 <= c < n implies 0 <= #[trigger] b[c] < p by {
        let x = entry_sum(
            all_entries(rows),
            |i: int, j: int|
                if j == c {
                    w[i]
                } else {
                    0
                },
        );
        lemma_mod_canonical(p, x);
    }
}

/// The constraint system and the vectors that satisfy it.
pub struct Instance {
    pub a: Seq<Seq<(int, int)>>,
    pub b: Seq<Seq<(int, int)>>,
    pub c: Seq<Seq<(int, int)>>,
    pub u: int,
    pub z: Seq<int>,
    pub e: Seq<int>,
    pub w: Seq<int>,
}

/// A matrix with at most `n` rows and columns.
pub open spec fn matrix_within(rows: Seq<Seq<(int, int)>>, n: nat) -> bool {
    &&& rows.len() <= n
    &&& columns_below(rows, n as int)
}

/// Vectors of length `2^k` satisfy the constraint system.
pub open spec fn satisfied(p: int, s: Instance, k: nat) -> bool {
    &&& s.z.len() == two_to(k)
    &&& s.w.len() == two_to(k)
    &&& canonical(p, s.z)
    &&& canonical(p, s.e)
    &&& canonical(p, s.w)
    &&& matrix_within(s.a, two_to(k))
    &&& matrix_within(s.b, two_to(k))
    &&& matrix_within(s.c, two_to(k))
    &&& relation_holds(p, s.a, s.b, s.c, s.u, s.z, s.e)
}

/// The tables of the first sum-check.
pub open spec fn first_tables(p: int, s: Instance, tau: Seq<int>) -> Seq<Seq<int>> {
    seq![
        tensor(p, tau),
        matrix_product(p, s.a, s.z),
        matrix_product(p, s.b, s.z),
        matrix_product(p, s.c, s.z),
        s.e,
    ]
}

/// The tables of the first sum-check fit, and their total vanishes.
proof fn lemma_first_tables(p: int, s: Instance, tau: Seq<int>, k: nat)
    requires
        p > 0,
        k >= 1,
        satisfied(p, s, k),
        tau.len() == k,
    ensures
        uniform(first_tables(p, s, tau), two_to(k)),
        all_canonical(p, first_tables(p, s, tau)),
        total(relation_comb(s.u), first_tables(p, s, tau)) % p == 0,
{
    let ts = first_tables(p, s, tau);
    let n = two_to(k);
    lemma_product_reduced(p, s.a, s.z);
    lemma_product_reduced(p, s.b, s.z);
    lemma_product_reduced(p, s.c, s.z);
    lemma_basis_reduced(p, tau);
    assert(ts[0] == basis(p, tau));
    assert forall|i: int| 0 <= i < 5 implies (#[trigger] ts[i]).len() == n && canonical(p, ts[i]) by {
        assert(i == 0 || i == 1 || i == 2 || i == 3 || i == 4);
    }
    let comb = relation_comb(s.u);
    let f = |j: int| comb(row(ts, j));
    let zero = |j: int| 0int;
    assert forall|j: int| 0 <= j < n implies cong(p, #[trigger] f(j), zero(j)) by {
        let v = row(ts, j);
        let (az, bz, cz) = (
            matrix_product(p, s.a, s.z),
            matrix_product(p, s.b, s.z),
            matrix_product(p, s.c, s.z),
        );
        assert(v =~= seq![ts[0][j], az[j], bz[j], cz[j], s.e[j]]);
        let x = az[j] * bz[j];
        let y = s.u * cz[j] + s.e[j];
        assert(cong(p, x, y));
        lemma_cong_sub(p, x, y, y, y);
        lemma_cong_mul(p, ts[0][j], ts[0][j], x - y, 0);
        assert(ts[0][j] * 0 == 0);
    }
    lemma_sum_of_cong(p, n, f, zero);
    lemma_sum_zero(Seq::new(n, zero));
    assert(total(comb, ts) == sum_of(n, f));
    lemma_mod_small(p, 0);
}

/// What the first sum-check leaves on the sending side.
pub proof fn lemma_first_extends(p: int, ch: Oracle, tx: Tx, s: Instance, k: nat)
    requires
        field_fits(p, ch),
        k >= 1,
        satisfied(p, s, k),
    ensures
        ({
            let f = first_layer(p, ch, tx, s.a, s.b, s.c, s.u, s.z, s.e);
            &&& extends(tx, f.tx)
            &&& f.point.len() == k
            &&& canonical(p, f.point)
        }),
{
    let tau = challenges(ch, tx.hist, k);
    lemma_log2_two_to(k);
    lemma_challenges_canonical(p, ch, tx.hist, k);
    lemma_first_tables(p, s, tau, k);
    let ts = first_tables(p, s, tau);
    let t = tx.squeeze_many(k);
    lemma_squeeze_many_hist(tx, k);
    let r = prove_rounds(cubic_shape(p, ch), relation_comb(s.u), t, ts, k);
    lemma_stage_extends(
        cubic_shape(p, ch),
        relation_comb(s.u),
        t,
        ts,
        k,
        seq![r.tables[1][0], r.tables[2][0], r.tables[3][0], r.tables[4][0]],
    );
}

/// The first sum-check is accepted, and leaves the values of the products and of the error.
pub proof fn lemma_first_complete(
    p: int,
    ch: Oracle,
    tx: Tx,
    s: Instance,
    k: nat,
    full: Seq<Event>,
    check: Check,
)
    requires
        field_fits(p, ch),
        k >= 1,
        satisfied(p, s, k),
        synced(tx, full, check),
        first_layer(p, ch, tx, s.a, s.b, s.c, s.u, s.z, s.e).tx.proof.is_prefix_of(full),
    ensures
        ({
            let f = first_layer(p, ch, tx, s.a, s.b, s.c, s.u, s.z, s.e);
            let v = check_initial(p, ch, check, k, s.u);
            &&& synced(f.tx, full, v.check)
            &&& v.point == f.point
            &&& v.evals == seq![
                mle(p, matrix_product(p, s.a, s.z), f.point),
                mle(p, matrix_product(p, s.b, s.z), f.point),
                mle(p, matrix_product(p, s.c, s.z), f.point),
                mle(p, s.e, f.point),
            ]
        }),
{
    let tau = challenges(ch, tx.hist, k);
    lemma_log2_two_to(k);
    lemma_challenges_canonical(p, ch, tx.hist, k);
    lemma_first_tables(p, s, tau, k);
    lemma_relation_comb(p, s.u);
    let ts = first_tables(p, s, tau);
    let sh = cubic_shape(p, ch);
    let comb = relation_comb(s.u);
    let t = tx.squeeze_many(k);
    law_same_challenges(tx, full, check, ch, k);
    let c1 = check.squeeze_many(ch, k).0;
    let r = prove_rounds(sh, comb, t, ts, k);
    let sent = seq![r.tables[1][0], r.tables[2][0], r.tables[3][0], r.tables[4][0]];
    lemma_stage_extends(sh, comb, t, ts, k, sent);
    lemma_stage(sh, comb, t, ts, k, sent, full, c1, 0);
    let v = check_rounds(sh, c1, 0, k);
    let q = mles(p, ts, r.point);
    assert(sent =~= seq![q[1], q[2], q[3], q[4]]);
    assert(ts[0] == basis(p, tau));
    lemma_basis_value(p, tau, r.point);
    let d = q[1] * q[2] - (s.u * q[3] + q[4]);
    lemma_cong_mul(p, q[0], eq_points(tau, r.point), d, d);
    assert(comb(q) == q[0] * d);
}

/// Three sums, weighed.
proof fn lemma_three_sums(
    n: nat,
    rc: Seq<int>,
    x: spec_fn(int) -> int,
    y: spec_fn(int) -> int,
    z: spec_fn(int) -> int,
    f: spec_fn(int) -> int,
)
    requires
        forall|j: int|
            0 <= j < n ==> #[trigger] f(j) == rc[0] * x(j) + rc[1] * y(j) + rc[2] * z(j),
    ensures
        sum_of(n, f) == rc[0] * sum_of(n, x) + rc[1] * sum_of(n, y) + rc[2] * sum_of(n, z),
    decreases n,
{
    if n == 0 {
        lemma_sum_step(0, f);
        lemma_sum_step(0, x);
        lemma_sum_step(0, y);
        lemma_sum_step(0, z);
    } else {
        let m = (n - 1) as nat;
        lemma_three_sums(m, rc, x, y, z, f);
        lemma_sum_step(m, f);
        lemma_sum_step(m, x);
        lemma_sum_step(m, y);
        lemma_sum_step(m, z);
        let (a, b, c) = (sum_of(m, x), sum_of(m, y), sum_of(m, z));
        let (d, e, g) = (x(m as int), y(m as int), z(m as int));
        let (r0, r1, r2) = (rc[0], rc[1], rc[2]);
        assert(f(m as int) == r0 * d + r1 * e + r2 * g);
        assert(r0 * (a + d) == r0 * a + r0 * d) by (nonlinear_arith);
        assert(r1 * (b + e) == r1 * b + r1 * e) by (nonlinear_arith);
        assert(r2 * (c + g) == r2 * c + r2 * g) by (nonlinear_arith);
    }
}

/// Three congruences, weighed.
pub proof fn lemma_weighed_cong(p: int, rc: Seq<int>, a: Seq<int>, b: Seq<int>)
    requires
        p > 0,
        cong(p, a[0], b[0]),
        cong(p, a[1], b[1]),
        cong(p, a[2], b[2]),
    ensures
        cong(p, weighed_three(rc, a), weighed_three(rc, b)),
{
    lemma_cong_mul(p, rc[0], rc[0], a[0], b[0]);
    lemma_cong_mul(p, rc[1], rc[1], a[1], b[1]);
    lemma_cong_mul(p, rc[2], rc[2], a[2], b[2]);
    lemma_cong_add(p, rc[0] * a[0], rc[0] * b[0], rc[1] * a[1], rc[1] * b[1]);
    lemma_cong_add(
        p,
        rc[0] * a[0] + rc[1] * a[1],
        rc[0] * b[0] + rc[1] * b[1],
        rc[2] * a[2],
        rc[2] * b[2],
    );
}

/// The vector is the witness with the public input added at the given places.
pub open spec fn public_added(p: int, z: Seq<int>, w: Seq<int>, indices: Seq<int>, pi: Seq<int>) -> bool {
    &&& indices.len() >= pi.len()
    &&& forall|j: int| 0 <= j < pi.len() ==> 0 <= #[trigger] indices[j] < z.len()
    &&& forall|i: int|
        0 <= i < z.len() ==> cong(
            p,
            #[trigger] z[i],
            w[i] + gathered(pi.len(), |j: int| indices[j], |j: int| pi[j], i),
        )
}

/// The value of the vector is that of the witness and that of the public input.
pub proof fn lemma_public_value(
    p: int,
    z: Seq<int>,
    w: Seq<int>,
    indices: Seq<int>,
    pi: Seq<int>,
    y: Seq<int>,
)
    requires
        p > 0,
        z.len() == two_to(y.len()),
        w.len() == z.len(),
        public_added(p, z, w, indices, pi),
    ensures
        cong(p, mle(p, z, y), pi_value(indices, pi, y) + mle(p, w, y)),
{
    let n = z.len();
    let e = eq_table(y);
    let idx = |j: int| indices[j];
    let wt = |j: int| pi[j];
    let g = |i: int| e[i];
    lemma_mle_cong(p, z, y);
    lemma_mle_cong(p, w, y);
    lemma_dot_sum(z, e, n);
    lemma_dot_sum(w, e, n);
    let fz = |i: int| z[i] * e[i];
    let fw = |i: int| w[i] * e[i];
    let fg = |i: int| gathered(pi.len(), idx, wt, i) * g(i);
    let sw = Seq::new(n, fw);
    let sg = Seq::new(n, fg);
    let both = |i: int| sw[i] + sg[i];
    assert forall|i: int| 0 <= i < n implies cong(p, #[trigger] fz(i), both(i)) by {
        let x = gathered(pi.len(), idx, wt, i);
        assert(cong(p, z[i], w[i] + x));
        lemma_cong_mul(p, z[i], w[i] + x, e[i], e[i]);
        let (a, b) = (w[i], e[i]);
        assert((a + x) * b == a * b + x * b) by (nonlinear_arith);
    }
    lemma_sum_of_cong(p, n, fz, both);
    lemma_sum_add(sw, sg);
    assert(Seq::new(n, both) =~= Seq::new(sw.len(), |i: int| sw[i] + sg[i]));
    assert forall|j: int| 0 <= j < pi.len() implies 0 <= #[trigger] idx(j) < n by {
        assert(0 <= indices[j] < n);
    }
    lemma_gathered_sum(n, pi.len(), idx, wt, g);
    let a = |j: int| wt(j) * g(idx(j));
    let b = |j: int| pi[j] * crate::multilinear::eq_prod(indices[j], y);
    assert forall|j: int| 0 <= j < pi.len() implies #[trigger] a(j) == b(j) by {
        assert(0 <= indices[j] < n);
    }
    lemma_sum_ext(pi.len(), a, b);
    let x = pi_value(indices, pi, y);
    assert(cong(p, dot(z, e), dot(w, e) + x));
    lemma_cong_add(p, x, x, mle(p, w, y), dot(w, e));
}

/// The tables of the second sum-check.
pub open spec fn second_tables(p: int, s: Instance, w: Seq<int>) -> Seq<Seq<int>> {
    let n = s.z.len();
    seq![bound_rows(p, s.a, w, n), bound_rows(p, s.b, w, n), bound_rows(p, s.c, w, n), s.z]
}

/// The values of the three matrices at the tables of two points.
pub open spec fn matrix_values(s: Instance, w: Seq<int>, v: Seq<int>) -> Seq<int> {
    seq![matrix_value(s.a, w, v), matrix_value(s.b, w, v), matrix_value(s.c, w, v)]
}

/// The tables of the second sum-check fit, and their total.
proof fn lemma_second_tables(p: int, s: Instance, w: Seq<int>, rc: Seq<int>, k: nat)
    requires
        p > 0,
        k >= 1,
        satisfied(p, s, k),
        w.len() == two_to(k),
    ensures
        uniform(second_tables(p, s, w), two_to(k)),
        all_canonical(p, second_tables(p, s, w)),
        cong(
            p,
            total(weighted_comb(rc), second_tables(p, s, w)),
            weighed_three(rc, matrix_values(s, w, s.z)),
        ),
{
    let ts = second_tables(p, s, w);
    let n = two_to(k);
    lemma_bound_reduced(p, s.a, w, n);
    lemma_bound_reduced(p, s.b, w, n);
    lemma_bound_reduced(p, s.c, w, n);
    assert forall|i: int| 0 <= i < 4 implies (#[trigger] ts[i]).len() == n && canonical(p, ts[i]) by {
        assert(i == 0 || i == 1 || i == 2 || i == 3);
    }
    let comb = weighted_comb(rc);
    let f = |j: int| comb(row(ts, j));
    let x = |j: int| ts[0][j] * s.z[j];
    let y = |j: int| ts[1][j] * s.z[j];
    let z = |j: int| ts[2][j] * s.z[j];
    assert forall|j: int| 0 <= j < n implies #[trigger] f(j) == rc[0] * x(j) + rc[1] * y(j) + rc[2] * z(j) by {
        assert(row(ts, j) =~= seq![ts[0][j], ts[1][j], ts[2][j], s.z[j]]);
    }
    lemma_three_sums(n, rc, x, y, z, f);
    lemma_dot_sum(ts[0], s.z, n);
    lemma_dot_sum(ts[1], s.z, n);
    lemma_dot_sum(ts[2], s.z, n);
    lemma_bound_value(p, s.a, w, s.z);
    lemma_bound_value(p, s.b, w, s.z);
    lemma_bound_value(p, s.c, w, s.z);
    let dots = seq![dot(ts[0], s.z), dot(ts[1], s.z), dot(ts[2], s.z)];
    lemma_weighed_cong(p, rc, dots, matrix_values(s, w, s.z));
    assert(total(comb, ts) == sum_of(n, f));
}

/// What the second sum-check leaves on the sending side.
pub proof fn lemma_parallel_extends(p: int, ch: Oracle, tx: Tx, s: Instance, rx: Seq<int>, k: nat)
    requires
        field_fits(p, ch),
        k >= 1,
        satisfied(p, s, k),
        rx.len() == k,
    ensures
        ({
            let g = parallel(p, ch, tx, s.a, s.b, s.c, s.z, tensor(p, rx));
            &&& extends(tx, g.tx)
            &&& g.point.len() == k
            &&& canonical(p, g.point)
        }),
{
    let w = tensor(p, rx);
    let rc = challenges(ch, tx.hist, 3);
    let ts = second_tables(p, s, w);
    let t = tx.squeeze_many(3);
    lemma_log2_two_to(k);
    lemma_squeeze_many_hist(tx, 3);
    lemma_second_tables(p, s, w, rc, k);
    let r = prove_rounds(quadratic_shape(p, ch), weighted_comb(rc), t, ts, k);
    lemma_stage_extends(
        quadratic_shape(p, ch),
        weighted_comb(rc),
        t,
        ts,
        k,
        seq![r.tables[0][0], r.tables[1][0], r.tables[2][0]],
    );
}

/// The second sum-check is accepted, and leaves the values of the matrices with their rows weighed.
pub proof fn lemma_parallel_complete(
    p: int,
    ch: Oracle,
    tx: Tx,
    s: Instance,
    rx: Seq<int>,
    evals: Seq<int>,
    indices: Seq<int>,
    pi: Seq<int>,
    k: nat,
    full: Seq<Event>,
    check: Check,
)
    requires
        field_fits(p, ch),
        k >= 1,
        satisfied(p, s, k),
        public_added(p, s.z, s.w, indices, pi),
        rx.len() == k,
        evals[0] == mle(p, matrix_product(p, s.a, s.z), rx),
        evals[1] == mle(p, matrix_product(p, s.b, s.z), rx),
        evals[2] == mle(p, matrix_product(p, s.c, s.z), rx),
        synced(tx, full, check),
        ({
            let g = parallel(p, ch, tx, s.a, s.b, s.c, s.z, tensor(p, rx));
            g.tx.write(mle(p, s.w, g.point)).proof.is_prefix_of(full)
        }),
    ensures
        ({
            let g = parallel(p, ch, tx, s.a, s.b, s.c, s.z, tensor(p, rx));
            let (c1, rc) = check.squeeze_many(ch, 3);
            let v = check_parallel(p, ch, c1, k, indices, pi, rc, weighed_three(rc, evals) % p);
            &&& synced(g.tx.write(mle(p, s.w, g.point)), full, v.check)
            &&& v.point == g.point
            &&& v.w == mle(p, s.w, g.point)
            &&& v.evals == seq![
                mle(p, bound_rows(p, s.a, tensor(p, rx), s.z.len()), g.point),
                mle(p, bound_rows(p, s.b, tensor(p, rx), s.z.len()), g.point),
                mle(p, bound_rows(p, s.c, tensor(p, rx), s.z.len()), g.point),
            ]
        }),
{
    let w = tensor(p, rx);
    let g = parallel(p, ch, tx, s.a, s.b, s.c, s.z, w);
    let ts = second_tables(p, s, w);
    let t = tx.squeeze_many(3);
    law_same_challenges(tx, full, check, ch, 3);
    let (c1, rc) = check.squeeze_many(ch, 3);
    lemma_log2_two_to(k);
    lemma_second_tables(p, s, w, rc, k);
    lemma_weighted_comb(p, rc);
    let sh = quadratic_shape(p, ch);
    let comb = weighted_comb(rc);
    let claim = weighed_three(rc, evals) % p;
    lemma_product_value(p, s.a, w, s.z);
    lemma_product_value(p, s.b, w, s.z);
    lemma_product_value(p, s.c, w, s.z);
    let want = matrix_values(s, w, s.z);
    lemma_cong_mod(p, dot(matrix_product(p, s.a, s.z), w));
    lemma_cong_mod(p, dot(matrix_product(p, s.b, s.z), w));
    lemma_cong_mod(p, dot(matrix_product(p, s.c, s.z), w));
    lemma_weighed_cong(p, rc, evals, want);
    assert(claim == total(comb, ts) % p);
    let r = prove_rounds(sh, comb, t, ts, k);
    let sent = seq![r.tables[0][0], r.tables[1][0], r.tables[2][0]];
    let at = mle(p, s.w, g.point);
    lemma_prefix_push(g.tx.proof, Event::Element(at));
    lemma_prefix_trans(g.tx.proof, g.tx.write(at).proof, full);
    lemma_stage_extends(sh, comb, t, ts, k, sent);
    lemma_stage(sh, comb, t, ts, k, sent, full, c1, claim);
    let v = check_rounds(sh, c1, claim, k);
    let (c2, e) = v.check.read_many(3);
    law_read_written(g.tx, full, c2, at);
    let q = mles(p, ts, r.point);
    assert(sent =~= seq![q[0], q[1], q[2]]);
    lemma_public_value(p, s.z, s.w, indices, pi, r.point);
    let x = pi_value(indices, pi, r.point) + at;
    let y = weighed_three(rc, e);
    lemma_cong_mul(p, q[3], x, y, y);
    let (r0, r1, r2) = (rc[0], rc[1], rc[2]);
    let (q0, q1, q2, q3) = (q[0], q[1], q[2], q[3]);
    assert(r0 * (q0 * q3) == q3 * (r0 * q0)) by (nonlinear_arith);
    assert(r1 * (q1 * q3) == q3 * (r1 * q1)) by (nonlinear_arith);
    assert(r2 * (q2 * q3) == q3 * (r2 * q2)) by (nonlinear_arith);
    let (s0, s1, s2) = (r0 * q0, r1 * q1, r2 * q2);
    assert(q3 * s0 + q3 * s1 + q3 * s2 == q3 * (s0 + s1 + s2)) by (nonlinear_arith);
    assert(comb(q) == q3 * y);
}

/// The description lists the entries of a matrix, and then zeros.
pub open spec fn describes(p: int, m: Meta, rows: Seq<Seq<(int, int)>>) -> bool {
    let e = all_entries(rows);
    &&& e.len() <= m.val.len()
    &&& canonical(p, m.val)
    &&& forall|i: int|
        0 <= i < e.len() ==> m.row[i] == (#[trigger] e[i]).0 && m.col[i] == e[i].1 && m.val[i] == e[i].2
    &&& forall|i: int| e.len() <= i < m.val.len() ==> #[trigger] m.val[i] == 0
}

/// The entries in a description, weighed by what is read for them, give the value of the matrix.
pub proof fn lemma_described_sum(
    p: int,
    m: Meta,
    rows: Seq<Seq<(int, int)>>,
    w: Seq<int>,
    v: Seq<int>,
    size: nat,
)
    requires
        describes(p, m, rows),
        m.row.len() == size,
        m.col.len() == size,
        m.val.len() == size,
    ensures
        sum_of(
            size,
            |i: int| m.val[i] * looked_up(w, m.row)[i] * looked_up(v, m.col)[i],
        ) == matrix_value(rows, w, v),
{
    let e = all_entries(rows);
    let f = |i: int| m.val[i] * looked_up(w, m.row)[i] * looked_up(v, m.col)[i];
    assert forall|i: int| e.len() <= i < size implies #[trigger] f(i) == 0 by {
        let (x, y) = (looked_up(w, m.row)[i], looked_up(v, m.col)[i]);
        assert(m.val[i] == 0);
        assert(0 * x * y == 0) by (nonlinear_arith);
    }
    lemma_sum_prefix(size, e.len(), f);
    let h = |i: int, j: int| w[i] * v[j];
    let g = |j: int| h(e[j].0, e[j].1) * e[j].2;
    assert forall|i: int| 0 <= i < e.len() implies #[trigger] f(i) == g(i) by {
        assert(m.row[i] == e[i].0 && m.col[i] == e[i].1 && m.val[i] == e[i].2);
        let (a, b, c) = (m.val[i], w[e[i].0], v[e[i].1]);
        assert(a * b * c == (b * c) * a) by (nonlinear_arith);
    }
    lemma_sum_ext(e.len(), f, g);
}

/// The descriptions are those of the three matrices.
pub open spec fn described(p: int, m: Seq<Meta>, s: Instance, k: nat, l: nat) -> bool {
    &&& metas_fit(p, m, k, l)
    &&& describes(p, m[0], s.a)
    &&& describes(p, m[1], s.b)
    &&& describes(p, m[2], s.c)
}

/// What is read from a reduced table is reduced.
pub proof fn lemma_looked_up(p: int, t: Seq<int>, a: Seq<int>)
    requires
        canonical(p, t),
        forall|i: int| 0 <= i < a.len() ==> 0 <= #[trigger] a[i] < t.len(),
    ensures
        canonical(p, looked_up(t, a)),
{
    assert forall|i: int| 0 <= i < a.len() implies 0 <= #[trigger] looked_up(t, a)[i] < p by {
        assert(0 <= a[i] < t.len());
        assert(0 <= t[a[i]] < p);
    }
}

/// The tables of the third sum-check fit, and their total.
proof fn lemma_third_tables(
    p: int,
    s: Instance,
    m: Seq<Meta>,
    w: Seq<int>,
    v: Seq<int>,
    rc: Seq<int>,
    k: nat,
    l: nat,
)
    requires
        p > 0,
        described(p, m, s, k, l),
        w.len() == two_to(k),
        v.len() == two_to(k),
        canonical(p, w),
        canonical(p, v),
    ensures
        ({
            let t = tables_of(m, w, v);
            let ts = t.val + t.e_rx + t.e_ry;
            &&& ts.len() == 9
            &&& uniform(ts, two_to(l))
            &&& all_canonical(p, ts)
            &&& matrix_total(rc, t.val, t.e_rx, t.e_ry) == weighed_three(rc, matrix_values(s, w, v))
        }),
{
    let t = tables_of(m, w, v);
    let ts = t.val + t.e_rx + t.e_ry;
    let n = two_to(l);
    lemma_tables_fit(m, w, v, k, l);
    assert(meta_fits(p, m[0], two_to(k), two_to(l)));
    assert(meta_fits(p, m[1], two_to(k), two_to(l)));
    assert(meta_fits(p, m[2], two_to(k), two_to(l)));
    lemma_looked_up(p, w, m[0].row);
    lemma_looked_up(p, w, m[1].row);
    lemma_looked_up(p, w, m[2].row);
    lemma_looked_up(p, v, m[0].col);
    lemma_looked_up(p, v, m[1].col);
    lemma_looked_up(p, v, m[2].col);
    assert forall|i: int| 0 <= i < 9 implies (#[trigger] ts[i]).len() == n && canonical(p, ts[i]) by {
        assert(i == 0 || i == 1 || i == 2 || i == 3 || i == 4 || i == 5 || i == 6 || i == 7 || i == 8);
    }
    lemma_described_sum(p, m[0], s.a, w, v, n);
    lemma_described_sum(p, m[1], s.b, w, v, n);
    lemma_described_sum(p, m[2], s.c, w, v, n);
    assert(t.val[0].len() == n);
    lemma_sum_ext(
        n,
        |x: int| t.val[0][x] * t.e_rx[0][x] * t.e_ry[0][x],
        |i: int| m[0].val[i] * looked_up(w, m[0].row)[i] * looked_up(v, m[0].col)[i],
    );
    lemma_sum_ext(
        n,
        |x: int| t.val[1][x] * t.e_rx[1][x] * t.e_ry[1][x],
        |i: int| m[1].val[i] * looked_up(w, m[1].row)[i] * looked_up(v, m[1].col)[i],
    );
    lemma_sum_ext(
        n,
        |x: int| t.val[2][x] * t.e_rx[2][x] * t.e_ry[2][x],
        |i: int| m[2].val[i] * looked_up(w, m[2].row)[i] * looked_up(v, m[2].col)[i],
    );
}

/// What the third sum-check leaves on the sending side.
pub proof fn lemma_matrix_extends(
    p: int,
    ch: Oracle,
    tx: Tx,
    s: Instance,
    m: Seq<Meta>,
    w: Seq<int>,
    v: Seq<int>,
    k: nat,
    l: nat,
)
    requires
        field_fits(p, ch),
        described(p, m, s, k, l),
        w.len() == two_to(k),
        v.len() == two_to(k),
        canonical(p, w),
        canonical(p, v),
    ensures
        ({
            let t = tables_of(m, w, v);
            let d = matrix_eval(p, ch, tx, t.val, t.e_rx, t.e_ry);
            &&& extends(tx, d.tx)
            &&& d.point.len() == l
            &&& canonical(p, d.point)
        }),
{
    let t = tables_of(m, w, v);
    let ts = t.val + t.e_rx + t.e_ry;
    let rc = challenges(ch, tx.hist, 3);
    let t1 = tx.squeeze_many(3);
    lemma_log2_two_to(l);
    lemma_squeeze_many_hist(tx, 3);
    lemma_third_tables(p, s, m, w, v, rc, k, l);
    assert(ts[0].len() == two_to(l));
    assert(t.val[0] == ts[0]);
    let r = prove_rounds(cubic_shape(p, ch), triples_comb(rc), t1, ts, l);
    lemma_stage_extends(cubic_shape(p, ch), triples_comb(rc), t1, ts, l, third_sent(r.tables));
}

/// The values that are sent after the third sum-check.
pub open spec fn third_sent(ts: Seq<Seq<int>>) -> Seq<int> {
    seq![
        ts[3][0],
        ts[4][0],
        ts[5][0],
        ts[6][0],
        ts[7][0],
        ts[8][0],
        ts[0][0],
        ts[1][0],
        ts[2][0],
    ]
}

/// The sum that the third sum-check is about.
pub open spec fn matrix_total(
    rc: Seq<int>,
    val: Seq<Seq<int>>,
    e_rx: Seq<Seq<int>>,
    e_ry: Seq<Seq<int>>,
) -> int {
    let n = val[0].len();
    rc[0] * sum_of(n, |x: int| val[0][x] * e_rx[0][x] * e_ry[0][x]) + rc[1] * sum_of(
        n,
        |x: int| val[1][x] * e_rx[1][x] * e_ry[1][x],
    ) + rc[2] * sum_of(n, |x: int| val[2][x] * e_rx[2][x] * e_ry[2][x])
}

/// What [`matrix_eval_sum_check`](crate::snark::sum_check::matrix_eval_sum_check) sends is accepted
/// for the claim that is its weighed sum of products, with the values of the tables at the point of
/// the prover, and refused for every other claim.
pub proof fn law_matrix_eval(
    p: int,
    ch: Oracle,
    tx: Tx,
    val: Seq<Seq<int>>,
    e_rx: Seq<Seq<int>>,
    e_ry: Seq<Seq<int>>,
    l: nat,
    full: Seq<Event>,
    check: Check,
    claim: int,
)
    requires
        field_fits(p, ch),
        val.len() == 3,
        e_rx.len() == 3,
        e_ry.len() == 3,
        uniform(val + e_rx + e_ry, two_to(l)),
        all_canonical(p, val + e_rx + e_ry),
        0 <= claim < p,
        synced(tx, full, check),
        matrix_eval(p, ch, tx, val, e_rx, e_ry).tx.proof.is_prefix_of(full),
    ensures
        ({
            let d = matrix_eval(p, ch, tx, val, e_rx, e_ry);
            let (c1, rc) = check.squeeze_many(ch, 3);
            let v = check_matrix(p, ch, c1, l, claim, rc);
            &&& rc == challenges(ch, tx.hist, 3)
            &&& claim == matrix_total(rc, val, e_rx, e_ry) % p ==> {
                &&& synced(d.tx, full, v.check)
                &&& v.point == d.point
                &&& v.evals == mles(p, e_rx + e_ry + val, d.point)
            }
            &&& claim != matrix_total(rc, val, e_rx, e_ry) % p && l >= 1 ==> v.check.err == Some(
                Error::SumCheck,
            )
        }),
{
    let ts = val + e_rx + e_ry;
    let t1 = tx.squeeze_many(3);
    law_same_challenges(tx, full, check, ch, 3);
    let (c1, rc) = check.squeeze_many(ch, 3);
    lemma_log2_two_to(l);
    lemma_triples_comb(p, rc);
    assert(ts[0].len() == two_to(l));
    assert(val[0] == ts[0]);
    let sh = cubic_shape(p, ch);
    let comb = triples_comb(rc);
    let n = two_to(l);
    let f = |j: int| comb(row(ts, j));
    let x = |j: int| val[0][j] * e_rx[0][j] * e_ry[0][j];
    let y = |j: int| val[1][j] * e_rx[1][j] * e_ry[1][j];
    let z = |j: int| val[2][j] * e_rx[2][j] * e_ry[2][j];
    assert forall|j: int| 0 <= j < n implies #[trigger] f(j) == rc[0] * x(j) + rc[1] * y(j) + rc[2] * z(
        j,
    ) by {
        let q = row(ts, j);
        assert(q[0] == val[0][j] && q[1] == val[1][j] && q[2] == val[2][j]);
        assert(q[3] == e_rx[0][j] && q[4] == e_rx[1][j] && q[5] == e_rx[2][j]);
        assert(q[6] == e_ry[0][j] && q[7] == e_ry[1][j] && q[8] == e_ry[2][j]);
    }
    lemma_three_sums(n, rc, x, y, z, f);
    assert(total(comb, ts) == sum_of(n, f));
    let whole = matrix_total(rc, val, e_rx, e_ry);
    assert(total(comb, ts) == whole);
    let r = prove_rounds(sh, comb, t1, ts, l);
    let sent = third_sent(r.tables);
    lemma_stage_extends(sh, comb, t1, ts, l, sent);
    if claim == whole % p {
        lemma_stage(sh, comb, t1, ts, l, sent, full, c1, claim);
        let q = mles(p, ts, r.point);
        assert(sent =~= mles(p, e_rx + e_ry + val, r.point));
        assert(sent =~= seq![q[3], q[4], q[5], q[6], q[7], q[8], q[0], q[1], q[2]]);
        lemma_triple_order(q[0], q[3], q[6]);
        lemma_triple_order(q[1], q[4], q[7]);
        lemma_triple_order(q[2], q[5], q[8]);
        assert(comb(q) == weighed_products(rc, sent));
    } else if l >= 1 {
        let first = prove_rounds(sh, comb, t1, ts, 1);
        lemma_rounds_grow(sh, comb, t1, ts, 1, l);
        lemma_write_all_extends(r.tx, sent);
        lemma_prefix_trans(first.tx.proof, r.tx.proof, r.tx.write_all(sent).proof);
        lemma_prefix_trans(first.tx.proof, r.tx.write_all(sent).proof, full);
        lemma_mod_canonical(p, whole);
        lemma_mod_small(p, claim);
        law_wrong_claim_refused(sh, comb, t1, ts, l, l, full, c1, claim);
        let v = check_rounds(sh, c1, claim, l);
        crate::transcript::lemma_read_many_failed(v.check, 0, 9);
    }
}

/// The third sum-check is accepted, and leaves the values of the tables.
pub proof fn lemma_matrix_complete(
    p: int,
    ch: Oracle,
    tx: Tx,
    s: Instance,
    m: Seq<Meta>,
    rx: Seq<int>,
    ry: Seq<int>,
    evals: Seq<int>,
    k: nat,
    l: nat,
    full: Seq<Event>,
    check: Check,
)
    requires
        field_fits(p, ch),
        satisfied(p, s, k),
        described(p, m, s, k, l),
        rx.len() == k,
        ry.len() == k,
        evals == seq![
            mle(p, bound_rows(p, s.a, tensor(p, rx), s.z.len()), ry),
            mle(p, bound_rows(p, s.b, tensor(p, rx), s.z.len()), ry),
            mle(p, bound_rows(p, s.c, tensor(p, rx), s.z.len()), ry),
        ],
        synced(tx, full, check),
        ({
            let t = tables_of(m, basis(p, rx), basis(p, ry));
            matrix_eval(p, ch, tx, t.val, t.e_rx, t.e_ry).tx.proof.is_prefix_of(full)
        }),
    ensures
        ({
            let t = tables_of(m, basis(p, rx), basis(p, ry));
            let d = matrix_eval(p, ch, tx, t.val, t.e_rx, t.e_ry);
            let (c1, rc) = check.squeeze_many(ch, 3);
            let v = check_matrix(p, ch, c1, l, weighed_three(rc, evals) % p, rc);
            &&& synced(d.tx, full, v.check)
            &&& v.point == d.point
            &&& v.evals == mles(p, t.e_rx + t.e_ry + t.val, d.point)
        }),
{
    let w = basis(p, rx);
    let u = basis(p, ry);
    let t = tables_of(m, w, u);
    law_same_challenges(tx, full, check, ch, 3);
    let (c1, rc) = check.squeeze_many(ch, 3);
    lemma_basis_reduced(p, rx);
    lemma_basis_reduced(p, ry);
    lemma_third_tables(p, s, m, w, u, rc, k, l);
    let claim = weighed_three(rc, evals) % p;
    lemma_bound_value(p, s.a, w, u);
    lemma_bound_value(p, s.b, w, u);
    lemma_bound_value(p, s.c, w, u);
    let n = s.z.len();
    lemma_cong_mod(p, dot(bound_rows(p, s.a, w, n), u));
    lemma_cong_mod(p, dot(bound_rows(p, s.b, w, n), u));
    lemma_cong_mod(p, dot(bound_rows(p, s.c, w, n), u));
    lemma_weighed_cong(p, rc, evals, matrix_values(s, w, u));
    lemma_mod_canonical(p, weighed_three(rc, evals));
    law_matrix_eval(p, ch, tx, t.val, t.e_rx, t.e_ry, l, full, check, claim);
}

/// The factors of a product in another order.
proof fn lemma_triple_order(a: int, b: int, c: int)
    ensures
        a * b * c == b * c * a,
{
    assert(a * b * c == b * c * a) by (nonlinear_arith);
}

} // verus!
