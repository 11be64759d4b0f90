//! What the verifier of the constraints makes sure of when it accepts, for every proof and every size.
use vstd::prelude::*;
use crate::algebra::{cong, lemma_cong_sub, two_to};
use crate::brakingbase_verify::lemma_failed;
use crate::error::Error;
use crate::gkr::gkr::{gkr_check, lemma_gkr_check_from_failed};
use crate::gkr::helper::weighted_bits;
use crate::multilinear::{eq_points, eq_prod};
use crate::opening_accepted::point_number;
use crate::rounds::{Shape, check_rounds};
use crate::snark::spartan::{
    Constraints, ReadsChecked, all_claims, check_claims, check_constraints, check_matrices,
    check_reads, check_sat, lemma_check_claims_failed, lemma_check_constraints_failed,
    lemma_check_initial_failed, lemma_check_matrices_failed, lemma_check_matrix_failed,
    lemma_check_parallel_failed, lemma_check_reads_failed, lookup_order, lookup_values,
    memory_values, products_agree,
};
use crate::snark::sum_check::{
    Checked, check_initial, check_matrix, check_parallel, eq_all, extended_points, weighed_three,
};
use crate::soundness::{
    elements, has_digests, has_elements, law_challenges_drawn, law_digests_read, law_elements_read,
};
use crate::sums::{dot, lemma_sum_ext, sum_of};
use crate::transcript::{Check, Oracle, Rx, lemma_read_many_len};

verus! {

/// The sum-check for the constraints, if it accepts: it starts from zero, and its last claim is the
/// value of the constraints at its point, as the four values that follow give it.
pub proof fn law_initial_accepted(p: int, ch: Oracle, check: Check, rounds: nat, u: int)
    requires
        check_initial(p, ch, check, rounds, u).check.err is None,
    ensures
        ({
            let a = check_initial(p, ch, check, rounds, u);
            let (c1, tau) = check.squeeze_many(ch, rounds);
            let r = check_rounds((Shape { p, ch, degree: 3, descending: true }), c1, 0, rounds);
            let (c2, e) = r.check.read_many(4);
            &&& check.err is None
            &&& r.check.err is None
            &&& c2.err is None
            &&& cong(
                p,
                r.claim,
                eq_points(tau, r.point) * (e[0] * e[1] - u * e[2] - e[3]),
            )
            &&& a.point == r.point
            &&& a.evals == e
            &&& a.check == c2
        }),
{
    let (c1, tau) = check.squeeze_many(ch, rounds);
    let sh = Shape { p, ch, degree: 3, descending: true };
    let r = check_rounds(sh, c1, 0, rounds);
    if r.check.err is Some {
        lemma_failed(r.check, ch, 4);
    }
    if check.err is Some {
        lemma_check_initial_failed(p, ch, check, rounds, u);
    }
}

/// The value at a point of the public input, placed at its indices.
pub open spec fn public_value(indices: Seq<int>, pi: Seq<int>, y: Seq<int>) -> int {
    sum_of(pi.len(), |j: int| pi[j] * eq_prod(indices[j], y))
}

/// The second sum-check, if it accepts: its last claim is the value of the public input and of the
/// witness at its point, times the weighted sum of the values of the three matrices.
pub proof fn law_parallel_accepted(
    p: int,
    ch: Oracle,
    check: Check,
    rounds: nat,
    indices: Seq<int>,
    pi: Seq<int>,
    rc: Seq<int>,
    claim: int,
)
    requires
        check_parallel(p, ch, check, rounds, indices, pi, rc, claim).check.err is None,
    ensures
        ({
            let b = check_parallel(p, ch, check, rounds, indices, pi, rc, claim);
            let r = check_rounds(
                (Shape { p, ch, degree: 2, descending: true }),
                check,
                claim,
                rounds,
            );
            let (c1, e) = r.check.read_many(3);
            let (c2, w) = c1.read();
            &&& check.err is None
            &&& r.check.err is None
            &&& c1.err is None
            &&& c2.err is None
            &&& cong(
                p,
                r.claim,
                (public_value(indices, pi, r.point) + w) * (rc[0] * e[0] + rc[1] * e[1] + rc[2]
                    * e[2]),
            )
            &&& b.point == r.point
            &&& b.evals == e
            &&& b.w == w
            &&& b.check == c2
        }),
{
    let sh = Shape { p, ch, degree: 2, descending: true };
    let r = check_rounds(sh, check, claim, rounds);
    if r.check.err is Some {
        lemma_failed(r.check, ch, 3);
    }
    if check.err is Some {
        lemma_check_parallel_failed(p, ch, check, rounds, indices, pi, rc, claim);
    }
}

/// A second sum-check that is accepted for two public inputs with the same proof: the difference of
/// their values at its point, times the weighted sum of the values of the matrices, is zero.
pub proof fn law_parallel_public_bound(
    p: int,
    ch: Oracle,
    check: Check,
    rounds: nat,
    i: Seq<int>,
    x: Seq<int>,
    j: Seq<int>,
    y: Seq<int>,
    rc: Seq<int>,
    claim: int,
)
    requires
        p > 0,
        check_parallel(p, ch, check, rounds, i, x, rc, claim).check.err is None,
        check_parallel(p, ch, check, rounds, j, y, rc, claim).check.err is None,
    ensures
        ({
            let b = check_parallel(p, ch, check, rounds, i, x, rc, claim);
            let e = b.evals;
            cong(
                p,
                (public_value(i, x, b.point) - public_value(j, y, b.point)) * (rc[0] * e[0] + rc[1]
                    * e[1] + rc[2] * e[2]),
                0,
            )
        }),
{
    law_parallel_accepted(p, ch, check, rounds, i, x, rc, claim);
    law_parallel_accepted(p, ch, check, rounds, j, y, rc, claim);
    let b = check_parallel(p, ch, check, rounds, i, x, rc, claim);
    let e = b.evals;
    let m = rc[0] * e[0] + rc[1] * e[1] + rc[2] * e[2];
    let (s, t) = (public_value(i, x, b.point), public_value(j, y, b.point));
    let w = b.w;
    lemma_cong_sub(p, (s + w) * m, (t + w) * m, (t + w) * m, (t + w) * m);
    assert((s + w) * m - (t + w) * m == (s - t) * m) by (nonlinear_arith);
}

/// The first two sum-checks, if they are accepted: the second starts from the values of the three
/// products that the first leaves, with weights that are drawn after them.
pub proof fn law_constraints_accepted(
    p: int,
    ch: Oracle,
    check: Check,
    k: nat,
    u: int,
    indices: Seq<int>,
    pi: Seq<int>,
)
    requires
        check_constraints(p, ch, check, k, u, indices, pi).check.err is None,
    ensures
        ({
            let f = check_constraints(p, ch, check, k, u, indices, pi);
            let a = check_initial(p, ch, check, k, u);
            let (c1, rc) = a.check.squeeze_many(ch, 3);
            let b = check_parallel(
                p,
                ch,
                c1,
                k,
                indices,
                pi,
                rc,
                (rc[0] * a.evals[0] + rc[1] * a.evals[1] + rc[2] * a.evals[2]) % p,
            );
            &&& a.check.err is None
            &&& b.check.err is None
            &&& f.rx == a.point
            &&& f.ry == b.point
            &&& f.e == a.evals[3]
            &&& f.w == b.w
            &&& f.evals == b.evals
            &&& f.check == b.check
        }),
{
    let a = check_initial(p, ch, check, k, u);
    if a.check.err is Some {
        lemma_failed(a.check, ch, 3);
        let rc = a.check.squeeze_many(ch, 3).1;
        lemma_check_parallel_failed(
            p,
            ch,
            a.check,
            k,
            indices,
            pi,
            rc,
            weighed_three(rc, a.evals) % p,
        );
    }
}

/// The sum-check for the values of the matrices, if it accepts: it starts from the weighted sum of
/// the values of the matrices, with weights that are drawn after six roots, and ends with the
/// weighted sum of the products of the values for rows, columns and entries.
pub proof fn law_matrices_accepted(p: int, ch: Oracle, check: Check, l: nat, evals: Seq<int>)
    requires
        check_matrices(p, ch, check, l, evals).check.err is None,
    ensures
        ({
            let d = check_matrices(p, ch, check, l, evals);
            let (c1, reads) = check.read_commitments(6);
            let (c2, rc) = c1.squeeze_many(ch, 3);
            let r = check_rounds(
                (Shape { p, ch, degree: 3, descending: true }),
                c2,
                (rc[0] * evals[0] + rc[1] * evals[1] + rc[2] * evals[2]) % p,
                l,
            );
            let (c3, e) = r.check.read_many(9);
            &&& check.err is None
            &&& has_digests(check.rx.stream, 0, 6)
            &&& r.check.err is None
            &&& c3.err is None
            &&& cong(
                p,
                r.claim,
                rc[0] * (e[0] * e[3] * e[6]) + rc[1] * (e[1] * e[4] * e[7]) + rc[2] * (e[2] * e[5]
                    * e[8]),
            )
            &&& d.point == r.point
            &&& d.evals == e
            &&& d.check == c3
        }),
{
    if check.err is Some {
        lemma_check_matrices_failed(p, ch, check, l, evals);
    }
    law_digests_read(check, 6);
    let (c1, reads) = check.read_commitments(6);
    let (c2, rc) = c1.squeeze_many(ch, 3);
    let claim = weighed_three(rc, evals) % p;
    if c1.err is Some {
        lemma_failed(c1, ch, 3);
        lemma_check_matrix_failed(p, ch, c1, l, claim, rc);
    }
    let r = check_rounds((Shape { p, ch, degree: 3, descending: true }), c2, claim, l);
    if r.check.err is Some {
        lemma_failed(r.check, ch, 9);
    }
}

/// The product of four values.
pub open spec fn four(a: int, b: int, c: int, d: int) -> int {
    a * b * c * d
}

/// The weighted sum of the first `n` values.
pub open spec fn weighed(n: nat, c: Seq<int>, v: spec_fn(int) -> int) -> int {
    sum_of(n, |i: int| c[i] * v(i))
}

/// The values of the eight fingerprints of the tables: a table without and with the times that are
/// left for each matrix, for rows and then for columns.
pub open spec fn table_value(y: int, z: int, index: int, row: int, col: int, e: Seq<int>, i: int) -> int {
    let base = index + y * (if i < 4 {
        row
    } else {
        col
    }) - z;
    if i == 0 || i == 4 {
        base
    } else {
        base + (y * y) * e[18 + (if i < 4 {
            i - 1
        } else {
            i - 2
        })]
    }
}

/// The values of the twelve fingerprints of the reads: what is put back and what is taken out by the
/// reads of each matrix, for rows and then for columns.
pub open spec fn access_value(y: int, z: int, e: Seq<int>, i: int) -> int {
    let m = i % 3;
    let base = if i < 6 {
        e[m] + y * e[12 + m] + (y * y) * e[6 + m] - z
    } else {
        e[3 + m] + y * e[15 + m] + (y * y) * e[9 + m] - z
    };
    if (i / 3) % 2 == 0 {
        base + y * y
    } else {
        base
    }
}

/// The check of the reads, if it accepts: for rows and for columns of each matrix the products for
/// the table and for the reads agree, and the claims that the two grand products leave are those of
/// the fingerprints of the values that follow.
pub proof fn law_reads_accepted(
    p: int,
    ch: Oracle,
    check: Check,
    k: nat,
    l: nat,
    rx: Seq<int>,
    ry: Seq<int>,
)
    requires
        p > 0,
        k >= 1,
        l >= 1,
        check_reads(p, ch, check, k, l, rx, ry).check.err is None,
    ensures
        ({
            let d = check_reads(p, ch, check, k, l, rx, ry);
            let (c1, gt) = check.squeeze_many(ch, 2);
            let a = gkr_check(p, ch, c1, 8, k);
            let b = gkr_check(p, ch, a.check, 12, l);
            let (c3, e) = b.check.read_many(24);
            let (m, n) = (a.finals, b.finals);
            let (y, z) = (gt[0], gt[1]);
            let (row, col) = (eq_points(rx, a.point), eq_points(ry, a.point));
            &&& check.err is None
            &&& a.check.err is None
            &&& b.check.err is None
            &&& c3.err is None
            &&& cong(p, four(m[0], m[1], n[0], n[1]), four(m[2], m[3], n[6], n[7]))
            &&& cong(p, four(m[0], m[1], n[2], n[3]), four(m[4], m[5], n[8], n[9]))
            &&& cong(p, four(m[0], m[1], n[4], n[5]), four(m[6], m[7], n[10], n[11]))
            &&& cong(p, four(m[8], m[9], n[12], n[13]), four(m[10], m[11], n[18], n[19]))
            &&& cong(p, four(m[8], m[9], n[14], n[15]), four(m[12], m[13], n[20], n[21]))
            &&& cong(p, four(m[8], m[9], n[16], n[17]), four(m[14], m[15], n[22], n[23]))
            &&& cong(
                p,
                a.claim,
                weighed(
                    8,
                    a.coeff,
                    |i: int| table_value(y, z, point_number(a.point), row, col, e, i),
                ),
            )
            &&& cong(p, b.claim, weighed(12, b.coeff, |i: int| access_value(y, z, e, i)))
            &&& d.point1 == a.point
            &&& d.point2 == b.point
            &&& d.evals == e
            &&& d.check == c3
        }),
{
    if check.err is Some {
        lemma_check_reads_failed(p, ch, check, k, l, rx, ry);
    }
    let (c1, gt) = check.squeeze_many(ch, 2);
    let a = gkr_check(p, ch, c1, 8, k);
    let b = gkr_check(p, ch, a.check, 12, l);
    let good = products_agree(p, a.finals, b.finals, 0) && products_agree(p, a.finals, b.finals, 1)
        && products_agree(p, a.finals, b.finals, 2);
    let c2 = b.check.require(good, Error::MemoryCheck);
    let (c3, e) = c2.read_many(24);
    law_challenges_drawn(check, ch, 2);
    if c2.err is Some {
        lemma_failed(c2, ch, 24);
    }
    if b.check.err is Some {
        lemma_failed(b.check, ch, 24);
    }
    if a.check.err is Some {
        lemma_gkr_check_from_failed(p, ch, a.check, 12, l);
    }
    crate::accepted::law_gkr_accepted(p, ch, c1, 8, k);
    crate::accepted::law_gkr_accepted(p, ch, a.check, 12, l);
    lemma_read_many_len(c2, 24);
    let (y, z) = (gt[0], gt[1]);
    let (row, col) = (eq_points(rx, a.point), eq_points(ry, a.point));
    let w = weighted_bits(a.point.reverse());
    let q = a.point;
    lemma_sum_ext(
        q.len(),
        |i: int| two_to(i as nat) * q.reverse()[i],
        |i: int| two_to(i as nat) * q[q.len() - 1 - i],
    );
    let mv = memory_values(y, z, w, row, col, e.subrange(18, 21), e.subrange(21, 24));
    let tv = |i: int| table_value(y, z, point_number(a.point), row, col, e, i);
    assert forall|i: int| 0 <= i < 8 implies #[trigger] tv(i) == mv[i] by {
        assert(i == 0 || i == 1 || i == 2 || i == 3 || i == 4 || i == 5 || i == 6 || i == 7);
    }
    lemma_weighed(8, mv, a.coeff, tv);
    let lv = lookup_values(y, z, lookup_order(e));
    let av = |i: int| access_value(y, z, e, i);
    let o = lookup_order(e);
    assert forall|i: int| 0 <= i < 12 implies #[trigger] av(i) == lv[i] by {
        assert(o.len() == 18);
        assert(i == 0 || i == 1 || i == 2 || i == 3 || i == 4 || i == 5 || i == 6 || i == 7 || i == 8
            || i == 9 || i == 10 || i == 11);
        assert(o[0] == e[0] && o[1] == e[1] && o[2] == e[2]);
        assert(o[3] == e[12] && o[4] == e[13] && o[5] == e[14]);
        assert(o[6] == e[6] && o[7] == e[7] && o[8] == e[8]);
        assert(o[9] == e[3] && o[10] == e[4] && o[11] == e[5]);
        assert(o[12] == e[15] && o[13] == e[16] && o[14] == e[17]);
        assert(o[15] == e[9] && o[16] == e[10] && o[17] == e[11]);
    }
    lemma_weighed(12, lv, b.coeff, av);
    assert(products_agree(p, a.finals, b.finals, 0));
    assert(products_agree(p, a.finals, b.finals, 1));
    assert(products_agree(p, a.finals, b.finals, 2));
}

/// An inner product with weights, as a sum.
proof fn lemma_weighed(n: nat, v: Seq<int>, c: Seq<int>, f: spec_fn(int) -> int)
    requires
        v.len() == n,
        c.len() == n,
        forall|i: int| 0 <= i < n ==> #[trigger] f(i) == v[i],
    ensures
        dot(v, c) == weighed(n, c, f),
{
    let g = |i: int| v[i] * c[i];
    let h = |i: int| c[i] * f(i);
    assert forall|i: int| 0 <= i < n implies #[trigger] g(i) == h(i) by {
        let (x, y) = (v[i], c[i]);
        assert(f(i) == x);
        assert(x * y == y * x) by (nonlinear_arith);
    }
    lemma_sum_ext(n, g, h);
}

/// All values that were claimed, in the order of their weights: those of the error and the witness,
/// nine of the matrices, six that were read, the rest of the reads and the times that are left.
pub open spec fn claimed(f: Constraints, d: Checked, r: ReadsChecked, i: int) -> int {
    if i == 0 {
        f.e
    } else if i == 1 {
        f.w
    } else if i < 11 {
        d.evals[i - 2]
    } else if i < 17 {
        r.evals[i + 1]
    } else if i < 29 {
        r.evals[i - 17]
    } else {
        r.evals[i - 11]
    }
}

/// The point `y` with its first coordinates once more in front, in reverse, up to `n` coordinates.
pub open spec fn lengthened(y: Seq<int>, n: nat) -> Seq<int> {
    let m = n - y.len();
    Seq::new(
        n,
        |i: int|
            if i < m {
                y[m - 1 - i]
            } else {
                y[i - m]
            },
    )
}

/// The sum of three of the values, weighed by three of the weights.
pub open spec fn three(c: Seq<int>, k: int, e: Seq<int>, g: int) -> int {
    c[k] * e[g] + c[k + 1] * e[g + 1] + c[k + 2] * e[g + 2]
}

/// The batched sum-check of all claims, if it accepts: every value that was claimed goes in with a
/// weight that is drawn after it, and the values at the end, weighed at the points of their claims,
/// make up the last claim.
pub proof fn law_claims_accepted(p: int, ch: Oracle, f: Constraints, d: Checked, r: ReadsChecked)
    requires
        p > 0,
        check_claims(p, ch, f, d, r).check.err is None,
        d.evals.len() == 9,
        r.evals.len() == 24,
        f.ry.len() == f.rx.len(),
        r.point1.len() == f.rx.len(),
        f.rx.len() <= d.point.len() <= 2 * f.rx.len(),
    ensures
        ({
            let x = check_claims(p, ch, f, d, r);
            let (c1, c) = r.check.squeeze_many(ch, 35);
            let n = d.point.len();
            let v = check_rounds(
                (Shape { p, ch, degree: 2, descending: false }),
                c1,
                weighed(35, c, |i: int| claimed(f, d, r, i)) % p,
                n,
            );
            let (c2, sent) = v.check.read_many(30);
            let e = sent.skip(1);
            let z = v.point;
            &&& r.check.err is None
            &&& v.check.err is None
            &&& c2.err is None
            &&& cong(
                p,
                v.claim,
                (c[0] * e[27]) * eq_points(lengthened(f.rx, n), z) + (c[1] * e[28]) * eq_points(
                    lengthened(f.ry, n),
                    z,
                ) + (three(c, 2, e, 12) + three(c, 5, e, 15) + three(c, 8, e, 24)) * eq_points(
                    d.point,
                    z,
                ) + (three(c, 11, e, 12) + three(c, 14, e, 15) + three(c, 17, e, 0) + three(
                    c,
                    20,
                    e,
                    3,
                ) + three(c, 23, e, 6) + three(c, 26, e, 9)) * eq_points(r.point2, z) + (three(
                    c,
                    29,
                    e,
                    18,
                ) + three(c, 32, e, 21)) * eq_points(lengthened(r.point1, n), z),
            )
            &&& x.point == z
            &&& x.evals == e
            &&& x.check == c2
        }),
{
    if r.check.err is Some {
        lemma_check_claims_failed(p, ch, f, d, r);
    }
    let (c1, c) = r.check.squeeze_many(ch, 35);
    law_challenges_drawn(r.check, ch, 35);
    let g = |i: int| claimed(f, d, r, i);
    let a = all_claims(f, d, r);
    assert(a.len() == 35);
    assert forall|i: int| 0 <= i < 35 implies #[trigger] g(i) == a[i] by {}
    lemma_weighed(35, a, c, g);
    let n = d.point.len();
    let y = seq![f.rx, f.ry, d.point, r.point2, r.point1];
    let v = check_rounds(
        (Shape { p, ch, degree: 2, descending: false }),
        c1,
        dot(a, c) % p,
        n,
    );
    if v.check.err is Some {
        lemma_failed(v.check, ch, 30);
    }
    lemma_lengthened(f.rx, n);
    lemma_lengthened(f.ry, n);
    lemma_lengthened(r.point1, n);
    let q = eq_all(extended_points(y), v.point);
    assert(q[0] == eq_points(lengthened(f.rx, n), v.point));
    assert(q[1] == eq_points(lengthened(f.ry, n), v.point));
    assert(q[2] == eq_points(d.point, v.point));
    assert(q[3] == eq_points(r.point2, v.point));
    assert(q[4] == eq_points(lengthened(r.point1, n), v.point));
}

proof fn lemma_lengthened(y: Seq<int>, n: nat)
    requires
        y.len() <= n <= 2 * y.len(),
    ensures
        crate::snark::sum_check::extended(y, (n - y.len()) as nat) == lengthened(y, n),
{
    assert(crate::snark::sum_check::extended(y, (n - y.len()) as nat) =~= lengthened(y, n));
}

/// A proof of the constraints that is accepted: it starts with the roots, and all four parts accept
/// one after the other.
pub proof fn law_sat_checked(
    p: int,
    ch: Oracle,
    check: Check,
    k: nat,
    l: nat,
    u: int,
    indices: Seq<int>,
    pi: Seq<int>,
)
    requires
        k >= 1,
        l >= 1,
        check_sat(p, ch, check, k, l, u, indices, pi).err is None,
    ensures
        ({
            let s = check.rx.stream;
            let c1 = Check {
                rx: Rx { hist: check.rx.hist + s.take(23), stream: s.skip(23) },
                err: None,
            };
            let f = check_constraints(p, ch, c1, k, u, indices, pi);
            let d = check_matrices(p, ch, f.check, l, f.evals);
            let r = check_reads(p, ch, d.check, k, l, f.rx, f.ry);
            &&& check.err is None
            &&& has_digests(s, 0, 23)
            &&& f.check.err is None
            &&& d.check.err is None
            &&& r.check.err is None
            &&& check_claims(p, ch, f, d, r).check.err is None
        }),
{
    let (c1, roots) = check.read_commitments(23);
    let f = check_constraints(p, ch, c1, k, u, indices, pi);
    let d = check_matrices(p, ch, f.check, l, f.evals);
    let r = check_reads(p, ch, d.check, k, l, f.rx, f.ry);
    if r.check.err is Some {
        lemma_check_claims_failed(p, ch, f, d, r);
    }
    if d.check.err is Some {
        lemma_check_reads_failed(p, ch, d.check, k, l, f.rx, f.ry);
    }
    if f.check.err is Some {
        lemma_check_matrices_failed(p, ch, f.check, l, f.evals);
    }
    if c1.err is Some {
        lemma_check_constraints_failed(p, ch, c1, k, u, indices, pi);
    }
    if check.err is Some {
        lemma_failed(check, ch, 23);
    }
    law_digests_read(check, 23);
}

/// One proof of the constraints that is accepted for two public inputs: the difference of the values
/// of the two at the point of the second sum-check, times the weighted sum of the values of the
/// matrices there, is zero.
pub proof fn law_sat_public_bound(
    p: int,
    ch: Oracle,
    check: Check,
    k: nat,
    l: nat,
    u: int,
    i: Seq<int>,
    x: Seq<int>,
    j: Seq<int>,
    y: Seq<int>,
)
    requires
        p > 0,
        k >= 1,
        l >= 1,
        check_sat(p, ch, check, k, l, u, i, x).err is None,
        check_sat(p, ch, check, k, l, u, j, y).err is None,
    ensures
        ({
            let s = check.rx.stream;
            let c1 = Check {
                rx: Rx { hist: check.rx.hist + s.take(23), stream: s.skip(23) },
                err: None,
            };
            let rc = check_initial(p, ch, c1, k, u).check.squeeze_many(ch, 3).1;
            let f = check_constraints(p, ch, c1, k, u, i, x);
            cong(
                p,
                (public_value(i, x, f.ry) - public_value(j, y, f.ry)) * (rc[0] * f.evals[0] + rc[1]
                    * f.evals[1] + rc[2] * f.evals[2]),
                0,
            )
        }),
{
    let s = check.rx.stream;
    let c1 = Check { rx: Rx { hist: check.rx.hist + s.take(23), stream: s.skip(23) }, err: None };
    law_sat_checked(p, ch, check, k, l, u, i, x);
    law_sat_checked(p, ch, check, k, l, u, j, y);
    law_constraints_accepted(p, ch, c1, k, u, i, x);
    law_constraints_accepted(p, ch, c1, k, u, j, y);
    let a = check_initial(p, ch, c1, k, u);
    let (c2, rc) = a.check.squeeze_many(ch, 3);
    let claim = (rc[0] * a.evals[0] + rc[1] * a.evals[1] + rc[2] * a.evals[2]) % p;
    law_parallel_public_bound(p, ch, c2, k, i, x, j, y, rc, claim);
}

/// With which error the sum-check for the constraints is refused.
pub proof fn law_initial_outcome(p: int, ch: Oracle, check: Check, rounds: nat, u: int)
    requires
        check.err is None,
    ensures
        ({
            let (c1, tau) = check.squeeze_many(ch, rounds);
            let r = check_rounds((Shape { p, ch, degree: 3, descending: true }), c1, 0, rounds);
            let s = r.check.rx.stream;
            let e = elements(s, 0, 4);
            check_initial(p, ch, check, rounds, u).check.err == (if r.check.err is Some {
                r.check.err
            } else if !has_elements(s, 0, 4) {
                Some(Error::Transcript)
            } else if !cong(p, r.claim, eq_points(tau, r.point) * (e[0] * e[1] - u * e[2] - e[3])) {
                Some(Error::SumCheckEvaluation)
            } else {
                None
            })
        }),
{
    let (c1, tau) = check.squeeze_many(ch, rounds);
    let r = check_rounds((Shape { p, ch, degree: 3, descending: true }), c1, 0, rounds);
    if r.check.err is Some {
        lemma_failed(r.check, ch, 4);
    } else {
        law_elements_read(r.check, 4);
    }
}

/// With which error the second sum-check is refused.
pub proof fn law_parallel_outcome(
    p: int,
    ch: Oracle,
    check: Check,
    rounds: nat,
    indices: Seq<int>,
    pi: Seq<int>,
    rc: Seq<int>,
    claim: int,
)
    ensures
        ({
            let r = check_rounds(
                (Shape { p, ch, degree: 2, descending: true }),
                check,
                claim,
                rounds,
            );
            let s = r.check.rx.stream;
            let e = elements(s, 0, 4);
            check_parallel(p, ch, check, rounds, indices, pi, rc, claim).check.err == (
            if r.check.err is Some {
                r.check.err
            } else if !has_elements(s, 0, 4) {
                Some(Error::Transcript)
            } else if !cong(
                p,
                r.claim,
                (public_value(indices, pi, r.point) + e[3]) * (rc[0] * e[0] + rc[1] * e[1] + rc[2]
                    * e[2]),
            ) {
                Some(Error::SumCheckEvaluation)
            } else {
                None
            })
        }),
{
    let r = check_rounds((Shape { p, ch, degree: 2, descending: true }), check, claim, rounds);
    let (c1, e) = r.check.read_many(3);
    if r.check.err is Some {
        lemma_failed(r.check, ch, 3);
    } else {
        law_elements_read(r.check, 3);
        law_elements_read(r.check, 4);
        assert(r.check.read_many(4).0 == c1.read().0);
        assert(r.check.read_many(4).1 == e.push(c1.read().1));
    }
}

/// With which error the sum-check for the values of the matrices is refused.
pub proof fn law_matrix_outcome(p: int, ch: Oracle, check: Check, rounds: nat, claim: int, rc: Seq<int>)
    ensures
        ({
            let r = check_rounds(
                (Shape { p, ch, degree: 3, descending: true }),
                check,
                claim,
                rounds,
            );
            let s = r.check.rx.stream;
            let e = elements(s, 0, 9);
            check_matrix(p, ch, check, rounds, claim, rc).check.err == (if r.check.err is Some {
                r.check.err
            } else if !has_elements(s, 0, 9) {
                Some(Error::Transcript)
            } else if !cong(
                p,
                r.claim,
                rc[0] * (e[0] * e[3] * e[6]) + rc[1] * (e[1] * e[4] * e[7]) + rc[2] * (e[2] * e[5]
                    * e[8]),
            ) {
                Some(Error::SumCheckEvaluation)
            } else {
                None
            })
        }),
{
    let r = check_rounds((Shape { p, ch, degree: 3, descending: true }), check, claim, rounds);
    if r.check.err is Some {
        lemma_failed(r.check, ch, 9);
    } else {
        law_elements_read(r.check, 9);
    }
}

/// A proof of the constraints fails with the error of the first part that fails, whatever follows.
pub proof fn law_sat_outcome(
    p: int,
    ch: Oracle,
    check: Check,
    k: nat,
    l: nat,
    u: int,
    indices: Seq<int>,
    pi: Seq<int>,
)
    requires
        k >= 1,
        l >= 1,
        check.err is None,
        has_digests(check.rx.stream, 0, 23),
    ensures
        ({
            let s = check.rx.stream;
            let c1 = Check {
                rx: Rx { hist: check.rx.hist + s.take(23), stream: s.skip(23) },
                err: None,
            };
            let a = check_initial(p, ch, c1, k, u);
            let f = check_constraints(p, ch, c1, k, u, indices, pi);
            let d = check_matrices(p, ch, f.check, l, f.evals);
            let r = check_reads(p, ch, d.check, k, l, f.rx, f.ry);
            let err = check_sat(p, ch, check, k, l, u, indices, pi).err;
            &&& a.check.err is Some ==> err == a.check.err
            &&& a.check.err is None && f.check.err is Some ==> err == f.check.err
            &&& f.check.err is None && d.check.err is Some ==> err == d.check.err
            &&& d.check.err is None && r.check.err is Some ==> err == r.check.err
            &&& r.check.err is None ==> err == check_claims(p, ch, f, d, r).check.err
        }),
{
    law_digests_read(check, 23);
    let (c1, roots) = check.read_commitments(23);
    let a = check_initial(p, ch, c1, k, u);
    let f = check_constraints(p, ch, c1, k, u, indices, pi);
    let d = check_matrices(p, ch, f.check, l, f.evals);
    let r = check_reads(p, ch, d.check, k, l, f.rx, f.ry);
    if a.check.err is Some {
        lemma_failed(a.check, ch, 3);
        let rc = a.check.squeeze_many(ch, 3).1;
        lemma_check_parallel_failed(
            p,
            ch,
            a.check,
            k,
            indices,
            pi,
            rc,
            weighed_three(rc, a.evals) % p,
        );
    }
    if f.check.err is Some {
        lemma_check_matrices_failed(p, ch, f.check, l, f.evals);
    }
    if d.check.err is Some {
        lemma_check_reads_failed(p, ch, d.check, k, l, f.rx, f.ry);
    }
    if r.check.err is Some {
        lemma_check_claims_failed(p, ch, f, d, r);
    }
}

/// The check of the reads is refused for its products, once both grand products are accepted, if the
/// products for the rows or the columns of a matrix differ.
pub proof fn law_reads_refused(
    p: int,
    ch: Oracle,
    check: Check,
    k: nat,
    l: nat,
    rx: Seq<int>,
    ry: Seq<int>,
    i: int,
)
    requires
        0 <= i < 3,
        check.err is None,
        ({
            let c1 = check.squeeze_many(ch, 2).0;
            let a = gkr_check(p, ch, c1, 8, k);
            let b = gkr_check(p, ch, a.check, 12, l);
            let (m, n) = (a.finals, b.finals);
            &&& b.check.err is None
            &&& !cong(
                p,
                four(m[0], m[1], n[2 * i], n[2 * i + 1]),
                four(m[2 * i + 2], m[2 * i + 3], n[2 * i + 6], n[2 * i + 7]),
            ) || !cong(
                p,
                four(m[8], m[9], n[2 * i + 12], n[2 * i + 13]),
                four(m[2 * i + 10], m[2 * i + 11], n[2 * i + 18], n[2 * i + 19]),
            )
        }),
    ensures
        check_reads(p, ch, check, k, l, rx, ry).check.err == Some(Error::MemoryCheck),
{
    let (c1, gt) = check.squeeze_many(ch, 2);
    let a = gkr_check(p, ch, c1, 8, k);
    let b = gkr_check(p, ch, a.check, 12, l);
    assert(!products_agree(p, a.finals, b.finals, i));
    assert(i == 0 || i == 1 || i == 2);
    let c2 = b.check.fail(Error::MemoryCheck);
    lemma_failed(c2, ch, 24);
}

} // verus!
