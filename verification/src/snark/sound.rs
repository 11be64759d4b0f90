//! Whoever the prover of a constraint system is: constraints that are accepted hold at the point that
//! was drawn, but for challenges that happen to hide a mistake.
use vstd::prelude::*;
use crate::accepted::lemma_distribute;
use crate::algebra::{canonical, cong, lemma_cong_add, lemma_cong_mul, lemma_cong_sub, two_to};
use crate::evaluations::mles;
use crate::multilinear::{basis, eq_points, mle};
use crate::rounds::{Shape, all_canonical, check_rounds, row, uniform};
use crate::snark::accepted::{law_initial_accepted, law_parallel_accepted, public_value};
use crate::snark::helper::matrix_product;
use crate::snark::laws::lemma_product_reduced;
use crate::snark::sum_check::{
    check_initial, check_parallel, lemma_relation_comb, lemma_weighted_comb, relation_comb,
    weighted_comb,
};
use crate::soundness::{law_challenges_drawn, law_claim_sound, law_rounds_checked, lucky_round};
use crate::sums::{lemma_sum_ext, sum_of};
use crate::transcript::{Check, Oracle};

verus! {

/// The tables of the constraints: the weights that are drawn for the rows, the products of the three
/// matrices with the vector, and the error.
pub open spec fn constraint_tables(
    p: int,
    tau: Seq<int>,
    a: Seq<Seq<(int, int)>>,
    b: Seq<Seq<(int, int)>>,
    c: Seq<Seq<(int, int)>>,
    z: Seq<int>,
    e: Seq<int>,
) -> Seq<Seq<int>> {
    seq![
        basis(p, tau),
        matrix_product(p, a, z),
        matrix_product(p, b, z),
        matrix_product(p, c, z),
        e,
    ]
}

/// A sum-check for the constraints that is accepted, and whose four values are those of the products
/// and of the error at its point: the constraints of all rows, weighed, add up to zero, but for a
/// challenge that hides a mistake.
pub proof fn law_relation_sound(
    p: int,
    ch: Oracle,
    check: Check,
    k: nat,
    u: int,
    a: Seq<Seq<(int, int)>>,
    b: Seq<Seq<(int, int)>>,
    c: Seq<Seq<(int, int)>>,
    z: Seq<int>,
    e: Seq<int>,
)
    requires
        p > 0,
        z.len() == two_to(k),
        e.len() == two_to(k),
        canonical(p, e),
        ({
            let v = check_initial(p, ch, check, k, u);
            &&& v.check.err is None
            &&& cong(p, v.evals[0], mle(p, matrix_product(p, a, z), v.point))
            &&& cong(p, v.evals[1], mle(p, matrix_product(p, b, z), v.point))
            &&& cong(p, v.evals[2], mle(p, matrix_product(p, c, z), v.point))
            &&& cong(p, v.evals[3], mle(p, e, v.point))
        }),
    ensures
        ({
            let v = check_initial(p, ch, check, k, u);
            let (c1, tau) = check.squeeze_many(ch, k);
            let (az, bz, cz) = (
                matrix_product(p, a, z),
                matrix_product(p, b, z),
                matrix_product(p, c, z),
            );
            cong(
                p,
                sum_of(
                    two_to(k),
                    |j: int| basis(p, tau)[j] * (az[j] * bz[j] - (u * cz[j] + e[j])),
                ),
                0,
            ) || exists|i: int|
                0 <= i < k && #[trigger] lucky_round(
                    (Shape { p, ch, degree: 3, descending: true }),
                    relation_comb(u),
                    constraint_tables(p, tau, a, b, c, z, e),
                    check.rx.stream,
                    v.point,
                    i,
                )
        }),
{
    let v = check_initial(p, ch, check, k, u);
    let (c1, tau) = check.squeeze_many(ch, k);
    law_initial_accepted(p, ch, check, k, u);
    law_challenges_drawn(check, ch, k);
    let sh = Shape { p, ch, degree: 3, descending: true };
    let r = check_rounds(sh, c1, 0, k);
    law_rounds_checked(sh, c1, 0, k);
    let ts = constraint_tables(p, tau, a, b, c, z, e);
    let comb = relation_comb(u);
    lemma_product_reduced(p, a, z);
    lemma_product_reduced(p, b, z);
    lemma_product_reduced(p, c, z);
    assert forall|j: int| 0 <= j < basis(p, tau).len() implies 0 <= #[trigger] basis(p, tau)[j] < p by {
        crate::algebra::lemma_mod_canonical(p, crate::multilinear::eq_prod(j, tau));
    }
    assert forall|i: int| 0 <= i < 5 implies (#[trigger] ts[i]).len() == two_to(k) && canonical(
        p,
        ts[i],
    ) by {
        assert(i == 0 || i == 1 || i == 2 || i == 3 || i == 4);
    }
    lemma_relation_comb(p, u);
    let q = mles(p, ts, r.point);
    let (x0, x1, x2, x3) = (v.evals[0], v.evals[1], v.evals[2], v.evals[3]);
    lemma_cong_mul(p, x0, q[1], x1, q[2]);
    lemma_cong_mul(p, u, u, x2, q[3]);
    lemma_cong_sub(p, x0 * x1, q[1] * q[2], u * x2, u * q[3]);
    lemma_cong_sub(p, x0 * x1 - u * x2, q[1] * q[2] - u * q[3], x3, q[4]);
    let d = q[1] * q[2] - (u * q[3] + q[4]);
    let eq = eq_points(tau, r.point);
    lemma_eq_value(p, tau, r.point);
    lemma_cong_mul(p, eq, q[0], x0 * x1 - u * x2 - x3, d);
    assert(comb(q) == q[0] * d);
    law_claim_sound(sh, comb, ts, k, c1, 0);
    let (az, bz, cz) = (matrix_product(p, a, z), matrix_product(p, b, z), matrix_product(p, c, z));
    let f = |j: int| basis(p, tau)[j] * (az[j] * bz[j] - (u * cz[j] + e[j]));
    let g = |j: int| comb(row(ts, j));
    assert forall|j: int| 0 <= j < two_to(k) implies #[trigger] g(j) == f(j) by {
        let w = row(ts, j);
        assert(w =~= seq![basis(p, tau)[j], az[j], bz[j], cz[j], e[j]]);
    }
    lemma_sum_ext(two_to(k), g, f);
    assert(ts[0].len() == two_to(k));
}

/// A second sum-check that is accepted, and whose values are those of three tables and, with the public
/// input, of a vector at its point: the claim is the weighted sum of the inner products of the tables
/// with the vector, but for a challenge that hides a mistake.
pub proof fn law_products_sound(
    p: int,
    ch: Oracle,
    check: Check,
    k: nat,
    indices: Seq<int>,
    pi: Seq<int>,
    rc: Seq<int>,
    claim: int,
    ts: Seq<Seq<int>>,
)
    requires
        p > 0,
        ts.len() == 4,
        uniform(ts, two_to(k)),
        all_canonical(p, ts),
        ({
            let v = check_parallel(p, ch, check, k, indices, pi, rc, claim);
            &&& v.check.err is None
            &&& cong(p, v.evals[0], mle(p, ts[0], v.point))
            &&& cong(p, v.evals[1], mle(p, ts[1], v.point))
            &&& cong(p, v.evals[2], mle(p, ts[2], v.point))
            &&& cong(p, public_value(indices, pi, v.point) + v.w, mle(p, ts[3], v.point))
        }),
    ensures
        ({
            let v = check_parallel(p, ch, check, k, indices, pi, rc, claim);
            cong(
                p,
                claim,
                sum_of(
                    two_to(k),
                    |j: int|
                        rc[0] * (ts[0][j] * ts[3][j]) + rc[1] * (ts[1][j] * ts[3][j]) + rc[2] * (
                        ts[2][j] * ts[3][j]),
                ),
            ) || exists|i: int|
                0 <= i < k && #[trigger] lucky_round(
                    (Shape { p, ch, degree: 2, descending: true }),
                    weighted_comb(rc),
                    ts,
                    check.rx.stream,
                    v.point,
                    i,
                )
        }),
{
    let v = check_parallel(p, ch, check, k, indices, pi, rc, claim);
    law_parallel_accepted(p, ch, check, k, indices, pi, rc, claim);
    let sh = Shape { p, ch, degree: 2, descending: true };
    let r = check_rounds(sh, check, claim, k);
    law_rounds_checked(sh, check, claim, k);
    let comb = weighted_comb(rc);
    lemma_weighted_comb(p, rc);
    let q = mles(p, ts, r.point);
    let z = public_value(indices, pi, v.point) + v.w;
    let (x0, x1, x2) = (v.evals[0], v.evals[1], v.evals[2]);
    lemma_cong_mul(p, rc[0], rc[0], x0, q[0]);
    lemma_cong_mul(p, rc[1], rc[1], x1, q[1]);
    lemma_cong_mul(p, rc[2], rc[2], x2, q[2]);
    lemma_cong_add(p, rc[0] * x0, rc[0] * q[0], rc[1] * x1, rc[1] * q[1]);
    lemma_cong_add(p, rc[0] * x0 + rc[1] * x1, rc[0] * q[0] + rc[1] * q[1], rc[2] * x2, rc[2] * q[2]);
    let s = rc[0] * q[0] + rc[1] * q[1] + rc[2] * q[2];
    lemma_cong_mul(p, z, q[3], rc[0] * x0 + rc[1] * x1 + rc[2] * x2, s);
    let (a, b, c, d) = (q[0], q[1], q[2], q[3]);
    let (u0, u1, u2) = (rc[0], rc[1], rc[2]);
    assert(d * s == s * d) by (nonlinear_arith);
    lemma_distribute(u0 * a, u1 * b, d);
    lemma_distribute(u0 * a + u1 * b, u2 * c, d);
    assert((u0 * a) * d == u0 * (a * d)) by (nonlinear_arith);
    assert((u1 * b) * d == u1 * (b * d)) by (nonlinear_arith);
    assert((u2 * c) * d == u2 * (c * d)) by (nonlinear_arith);
    assert(comb(q) == q[3] * s);
    law_claim_sound(sh, comb, ts, k, check, claim);
    let f = |j: int|
        rc[0] * (ts[0][j] * ts[3][j]) + rc[1] * (ts[1][j] * ts[3][j]) + rc[2] * (ts[2][j] * ts[3][j]);
    let g = |j: int| comb(row(ts, j));
    lemma_sum_ext(two_to(k), g, f);
    assert(ts[0].len() == two_to(k));
}

/// The value at a point of the table of the basis polynomials of another.
proof fn lemma_eq_value(p: int, x: Seq<int>, y: Seq<int>)
    requires
        p > 0,
        x.len() == y.len(),
    ensures
        cong(p, eq_points(x, y), mle(p, basis(p, x), y)),
{
    crate::multilinear::lemma_bind_basis(p, x, y);
    let b = basis(p, x);
    assert forall|j: int| 0 <= j < b.len() implies 0 <= #[trigger] b[j] < p by {
        crate::algebra::lemma_mod_canonical(p, crate::multilinear::eq_prod(j, x));
    }
    crate::multilinear::law_bind_evaluates(p, b, y);
}

} // verus!
