//! What the checks of the protocols make sure of when they accept, for every proof and every size.
use vstd::prelude::*;
use crate::algebra::{cong, lemma_cong_mod, lemma_cong_sub};
use crate::gkr::gkr::{
    GkrChecking, gkr_check, gkr_check_layer, gkr_check_layers, lemma_gkr_check_failed,
    product_claim,
};
use crate::multilinear::eq_points;
use crate::rounds::{Shape, check_rounds};
use crate::soundness::{
    elements, has_elements, law_challenges_drawn, law_elements_read, law_rounds_checked,
    lemma_same_rounds,
};
use crate::sum_checks::{batch_shape, check_batch_sum};
use crate::sums::sum_of;
use crate::transcript::{Check, Event, Oracle, lemma_read_many_failed, lemma_squeeze_many_failed};

verus! {

/// The weights of the nine evaluations in the last claim of a batched sum-check: each is weighed
/// at the points of the claims that speak of it.
pub open spec fn evaluation_weights(c: Seq<int>, x: Seq<Seq<int>>, r: Seq<int>) -> Seq<int> {
    let q = |i: int| if i < x.len() { eq_points(x[i], r) } else { 0 };
    seq![
        c[0] * q(0) + c[1] * q(1) + c[2] * q(2),
        c[3] * q(3),
        c[4] * q(3) + c[6] * q(4),
        c[5] * q(3) + c[7] * q(4),
        c[8] * q(4),
        c[9] * q(4),
        c[10] * q(4),
        c[11] * q(4),
        c[12] * q(5),
    ]
}

/// The sum of the evaluations, weighed.
pub open spec fn weighed_evaluations(w: Seq<int>, e: Seq<int>) -> int {
    w[0] * e[0] + w[1] * e[1] + w[2] * e[2] + w[3] * e[3] + w[4] * e[4] + w[5] * e[5] + w[6] * e[6]
        + w[7] * e[7] + w[8] * e[8]
}

/// In a batched sum-check that is accepted, the nine evaluations that follow the rounds, weighed at
/// the points of their claims, make up the last claim of the rounds.
pub proof fn law_batch_sum_accepted(
    p: int,
    ch: Oracle,
    check: Check,
    x: Seq<Seq<int>>,
    claim: int,
    c: Seq<int>,
)
    requires
        p > 0,
        x.len() >= 3,
        check_batch_sum(p, ch, check, x, claim, c).check.err is None,
    ensures
        ({
            let b = check_batch_sum(p, ch, check, x, claim, c);
            let n = x[0].len();
            let v = check_rounds(
                (Shape { p, ch, degree: 2, descending: false }),
                check,
                claim,
                n,
            );
            let s = check.rx.stream;
            let e = elements(s, 3 * n as int, 9);
            &&& check.err is None
            &&& v.check.err is None
            &&& has_elements(s, 0, 3 * n as int + 9)
            &&& cong(p, v.claim, weighed_evaluations(evaluation_weights(c, x, v.point), e))
            &&& b.point == v.point
            &&& b.point.len() == n
            &&& b.evals == seq![e[0], e[2], e[3], e[1], e[4], e[5], e[6], e[7], e[8]]
            &&& b.check.rx.stream == s.skip(3 * n as int + 9)
            &&& b.check.rx.hist == v.check.rx.hist + s.subrange(3 * n as int, 3 * n as int + 9)
        }),
{
    let b = check_batch_sum(p, ch, check, x, claim, c);
    let n = x[0].len();
    let sh = batch_shape(p, ch);
    let v = check_rounds(sh, check, claim, n);
    let s = check.rx.stream;
    let k = 3 * n as int;
    assert(n as int * (sh.degree + 1) == k) by (nonlinear_arith)
        requires
            sh.degree == 2,
            k == 3 * n as int,
    ;
    if v.check.err is Some {
        lemma_read_many_failed(v.check, 0, 9);
    }
    law_rounds_checked(sh, check, claim, n);
    law_elements_read(v.check, 9);
    let (c1, e) = v.check.read_many(9);
    lemma_after(s, k, 9);
    assert(e =~= elements(s, k, 9));
    assert(has_elements(s, 0, k + 9)) by {
        assert forall|i: int| 0 <= i < k + 9 implies #[trigger] s[i] is Element by {
            if i >= k {
                assert(v.check.rx.stream[i - k] == s[i]);
            }
        }
    }
    let q = |i: int| if i < x.len() { eq_points(x[i], v.point) } else { 0 };
    let w = evaluation_weights(c, x, v.point);
    lemma_spread(c, e, q(0), q(1), q(2), q(3), q(4), q(5));
}

/// What is left after `k` items begins with the item `k`.
pub proof fn lemma_after(s: Seq<Event>, k: int, n: nat)
    requires
        0 <= k <= s.len(),
    ensures
        n <= s.len() - k ==> s.skip(k).take(n as int) == s.subrange(k, k + n),
        n <= s.len() - k ==> s.skip(k).skip(n as int) == s.skip(k + n),
        elements(s.skip(k), 0, n) == elements(s, k, n) || n > s.len() - k,
{
    if n <= s.len() - k {
        assert(s.skip(k).take(n as int) =~= s.subrange(k, k + n));
        assert(s.skip(k).skip(n as int) =~= s.skip(k + n));
        assert(elements(s.skip(k), 0, n) =~= elements(s, k, n));
    }
}

pub proof fn lemma_spread(c: Seq<int>, e: Seq<int>, q0: int, q1: int, q2: int, q3: int, q4: int, q5: int)
    ensures
        e[0] * (c[0] * q0 + c[1] * q1 + c[2] * q2) + (c[3] * e[1] + c[4] * e[2] + c[5] * e[3]) * q3 + (
        c[6] * e[2] + c[7] * e[3] + c[8] * e[4] + c[9] * e[5] + c[10] * e[6] + c[11] * e[7]) * q4 + (
        c[12] * e[8]) * q5 == (c[0] * q0 + c[1] * q1 + c[2] * q2) * e[0] + (c[3] * q3) * e[1] + (c[4]
            * q3 + c[6] * q4) * e[2] + (c[5] * q3 + c[7] * q4) * e[3] + (c[8] * q4) * e[4] + (c[9] * q4)
            * e[5] + (c[10] * q4) * e[6] + (c[11] * q4) * e[7] + (c[12] * q5) * e[8],
{
    let (e0, e1, e2, e3, e4, e5, e6, e7, e8) = (e[0], e[1], e[2], e[3], e[4], e[5], e[6], e[7], e[8]);
    let (c3, c4, c5, c6, c7, c8, c9, c10, c11, c12) = (
        c[3], c[4], c[5], c[6], c[7], c[8], c[9], c[10], c[11], c[12]);
    let f = c[0] * q0 + c[1] * q1 + c[2] * q2;
    assert(e0 * f == f * e0) by (nonlinear_arith);
    lemma_swap(c3, e1, q3);
    lemma_swap(c4, e2, q3);
    lemma_swap(c5, e3, q3);
    lemma_distribute(c3 * e1, c4 * e2, q3);
    lemma_distribute(c3 * e1 + c4 * e2, c5 * e3, q3);
    lemma_swap(c6, e2, q4);
    lemma_swap(c7, e3, q4);
    lemma_swap(c8, e4, q4);
    lemma_swap(c9, e5, q4);
    lemma_swap(c10, e6, q4);
    lemma_swap(c11, e7, q4);
    lemma_distribute(c6 * e2, c7 * e3, q4);
    lemma_distribute(c6 * e2 + c7 * e3, c8 * e4, q4);
    lemma_distribute(c6 * e2 + c7 * e3 + c8 * e4, c9 * e5, q4);
    lemma_distribute(c6 * e2 + c7 * e3 + c8 * e4 + c9 * e5, c10 * e6, q4);
    lemma_distribute(c6 * e2 + c7 * e3 + c8 * e4 + c9 * e5 + c10 * e6, c11 * e7, q4);
    lemma_distribute(c4 * q3, c6 * q4, e2);
    lemma_distribute(c5 * q3, c7 * q4, e3);
    lemma_swap(c12, e8, q5);
}

pub proof fn lemma_swap(c: int, e: int, q: int)
    ensures
        (c * e) * q == (c * q) * e,
{
    assert((c * e) * q == (c * q) * e) by (nonlinear_arith);
}

pub proof fn lemma_distribute(a: int, b: int, q: int)
    ensures
        (a + b) * q == a * q + b * q,
{
    assert((a + b) * q == a * q + b * q) by (nonlinear_arith);
}

/// Two proofs of one batched sum-check with the same rounds that are both accepted, and of which the
/// evaluations differ in one entry at most, agree in that entry, but for a weight that annihilates
/// the difference.
pub proof fn law_batch_evaluations_bound(
    p: int,
    ch: Oracle,
    a: Check,
    b: Check,
    x: Seq<Seq<int>>,
    claim: int,
    c: Seq<int>,
    j: int,
)
    requires
        p > 0,
        x.len() >= 3,
        0 <= j < 9,
        check_batch_sum(p, ch, a, x, claim, c).check.err is None,
        check_batch_sum(p, ch, b, x, claim, c).check.err is None,
        a.rx.hist == b.rx.hist,
        forall|i: int|
            0 <= i < 3 * x[0].len() as int + 9 && i != 3 * x[0].len() as int + j
                ==> #[trigger] a.rx.stream[i] == b.rx.stream[i],
    ensures
        ({
            let k = 3 * x[0].len() as int + j;
            let r = check_batch_sum(p, ch, a, x, claim, c).point;
            &&& r == check_batch_sum(p, ch, b, x, claim, c).point
            &&& cong(
                p,
                evaluation_weights(c, x, r)[j] * (a.rx.stream[k]->Element_0
                    - b.rx.stream[k]->Element_0),
                0,
            )
        }),
{
    let n = x[0].len();
    let k = 3 * n as int;
    let sh = batch_shape(p, ch);
    assert(n as int * (sh.degree + 1) == k) by (nonlinear_arith)
        requires
            sh.degree == 2,
            k == 3 * n as int,
    ;
    law_batch_sum_accepted(p, ch, a, x, claim, c);
    law_batch_sum_accepted(p, ch, b, x, claim, c);
    lemma_same_rounds(sh, a, b, claim, n);
    let (e, f) = (elements(a.rx.stream, k, 9), elements(b.rx.stream, k, 9));
    let r = check_batch_sum(p, ch, a, x, claim, c).point;
    let w = evaluation_weights(c, x, r);
    assert forall|i: int| 0 <= i < 9 && i != j implies e[i] == f[i] by {
        assert(a.rx.stream[k + i] == b.rx.stream[k + i]);
    }
    lemma_cong_sub(p, weighed_evaluations(w, e), weighed_evaluations(w, f), w[j] * f[j], w[j] * f[j]);
    let rest = weighed_evaluations(w, f) - w[j] * f[j];
    assert(weighed_evaluations(w, e) - w[j] * e[j] == rest);
    lemma_cong_sub(p, weighed_evaluations(w, e), weighed_evaluations(w, f), rest, rest);
    lemma_cong_sub(p, w[j] * e[j], w[j] * f[j], w[j] * f[j], w[j] * f[j]);
    assert(w[j] * e[j] - w[j] * f[j] == w[j] * (e[j] - f[j])) by (nonlinear_arith);
}

/// A batched sum-check that is accepted for two lists of points with the same proof weighs the same
/// evaluations to the same sum at both.
pub proof fn law_batch_points_bound(
    p: int,
    ch: Oracle,
    check: Check,
    x: Seq<Seq<int>>,
    y: Seq<Seq<int>>,
    claim: int,
    c: Seq<int>,
)
    requires
        p > 0,
        x.len() >= 3,
        y.len() >= 3,
        x[0].len() == y[0].len(),
        check_batch_sum(p, ch, check, x, claim, c).check.err is None,
        check_batch_sum(p, ch, check, y, claim, c).check.err is None,
    ensures
        ({
            let r = check_batch_sum(p, ch, check, x, claim, c).point;
            let e = elements(check.rx.stream, 3 * x[0].len() as int, 9);
            cong(
                p,
                weighed_evaluations(evaluation_weights(c, x, r), e),
                weighed_evaluations(evaluation_weights(c, y, r), e),
            )
        }),
{
    law_batch_sum_accepted(p, ch, check, x, claim, c);
    law_batch_sum_accepted(p, ch, check, y, claim, c);
}

/// The weighted sum of the products of the two values of each of `n` circuits.
pub open spec fn gate_total(n: nat, coeff: Seq<int>, v: Seq<int>) -> int {
    sum_of(n, |c: int| coeff[c] * (v[2 * c] * v[2 * c + 1]))
}

/// The weighted sum of the values at `r` of the lines with the two values of each of `n` circuits.
pub open spec fn line_total(n: nat, coeff: Seq<int>, v: Seq<int>, r: int) -> int {
    sum_of(n, |c: int| coeff[c] * (v[2 * c] + (v[2 * c + 1] - v[2 * c]) * r))
}

/// The step from the state `a` to the state `b` over a layer with `k` rounds: the rounds are
/// accepted, the last claim is the weighted sum of the products of the values that follow, times
/// the basis polynomial of the point above, and the next claim is for the lines through the
/// values.
pub open spec fn layer_checked(
    p: int,
    ch: Oracle,
    n: nat,
    k: nat,
    a: GkrChecking,
    b: GkrChecking,
) -> bool {
    let v = check_rounds((Shape { p, ch, degree: 3, descending: false }), a.check, a.claim, k);
    let s = a.check.rx.stream;
    let e = elements(s, 4 * k as int, 2 * n);
    let r = ch(v.check.rx.hist + s.subrange(4 * k as int, 4 * k as int + 2 * n));
    &&& a.check.err is None
    &&& v.check.err is None
    &&& has_elements(s, 0, 4 * k as int + 2 * n)
    &&& cong(p, v.claim, eq_points(a.point, v.point) * gate_total(n, a.coeff, e))
    &&& b.point == v.point.push(r)
    &&& cong(p, b.claim, line_total(n, a.coeff, e, r))
    &&& b.coeff == a.coeff
    &&& b.finals == a.finals
    &&& b.check.err is None
    &&& b.check.rx.stream == s.skip(4 * k as int + 2 * n)
}

/// One layer that is accepted.
pub proof fn law_layer_accepted(p: int, ch: Oracle, a: GkrChecking, n: nat, k: nat)
    requires
        p > 0,
        a.coeff.len() == n,
        gkr_check_layer(p, ch, a, n, k).check.err is None,
    ensures
        layer_checked(p, ch, n, k, a, gkr_check_layer(p, ch, a, n, k)),
{
    let b = gkr_check_layer(p, ch, a, n, k);
    let sh = Shape { p, ch, degree: 3, descending: false };
    let v = check_rounds(sh, a.check, a.claim, k);
    let s = a.check.rx.stream;
    let m = 4 * k as int;
    assert(k as int * (sh.degree + 1) == m) by (nonlinear_arith)
        requires
            sh.degree == 3,
            m == 4 * k as int,
    ;
    if v.check.err is Some {
        lemma_read_many_failed(v.check, 0, 2 * n);
    }
    law_rounds_checked(sh, a.check, a.claim, k);
    law_elements_read(v.check, 2 * n);
    let (c1, e) = v.check.read_many(2 * n);
    lemma_after(s, m, 2 * n);
    assert(e =~= elements(s, m, 2 * n));
    assert(has_elements(s, 0, m + 2 * n)) by {
        assert forall|i: int| 0 <= i < m + 2 * n implies #[trigger] s[i] is Element by {
            if i >= m {
                assert(v.check.rx.stream[i - m] == s[i]);
            }
        }
    }
    let r = ch(c1.rx.hist);
    let pc = product_claim(p, a.coeff, e);
    lemma_cong_mod(p, gate_total(n, a.coeff, e));
    let q = eq_points(a.point, v.point);
    crate::algebra::lemma_cong_mul(p, q, q, pc, gate_total(n, a.coeff, e));
    lemma_cong_mod(p, line_total(n, a.coeff, e, r));
}

/// In a grand-product proof that is accepted, the values of the outputs come first, the weights of
/// the circuits are drawn after them, and every layer below is checked against the one above.
pub proof fn law_gkr_accepted(p: int, ch: Oracle, check: Check, n: nat, depth: nat)
    requires
        p > 0,
        depth >= 1,
        gkr_check(p, ch, check, n, depth).check.err is None,
    ensures
        ({
            let (h, s) = (check.rx.hist, check.rx.stream);
            let f = elements(s, 0, 2 * n);
            let a = gkr_check_layers(p, ch, check, n, 0);
            let b = gkr_check(p, ch, check, n, depth);
            let g = h + s.take(2 * n as int);
            &&& check.err is None
            &&& has_elements(s, 0, 2 * n as int)
            &&& b.finals == f
            &&& b.coeff.len() == n
            &&& forall|j: int|
                0 <= j < n ==> #[trigger] b.coeff[j] == ch(
                    g.push(Event::Challenge) + Seq::new(j as nat, |i: int| Event::Challenge),
                )
            &&& a.point == seq![ch(g)]
            &&& cong(p, a.claim, line_total(n, b.coeff, f, ch(g)))
            &&& forall|k: int|
                1 <= k < depth ==> #[trigger] layer_checked(
                    p,
                    ch,
                    n,
                    k as nat,
                    gkr_check_layers(p, ch, check, n, (k - 1) as nat),
                    gkr_check_layers(p, ch, check, n, k as nat),
                )
            &&& b == gkr_check_layers(p, ch, check, n, (depth - 1) as nat)
            &&& b.point.len() == depth
        }),
{
    lemma_gkr_layers(p, ch, check, n, (depth - 1) as nat);
}

proof fn lemma_gkr_layers(p: int, ch: Oracle, check: Check, n: nat, m: nat)
    requires
        p > 0,
        gkr_check_layers(p, ch, check, n, m).check.err is None,
    ensures
        ({
            let (h, s) = (check.rx.hist, check.rx.stream);
            let f = elements(s, 0, 2 * n);
            let a = gkr_check_layers(p, ch, check, n, 0);
            let b = gkr_check_layers(p, ch, check, n, m);
            let g = h + s.take(2 * n as int);
            &&& check.err is None
            &&& has_elements(s, 0, 2 * n as int)
            &&& b.finals == f
            &&& b.coeff.len() == n
            &&& forall|j: int|
                0 <= j < n ==> #[trigger] b.coeff[j] == ch(
                    g.push(Event::Challenge) + Seq::new(j as nat, |i: int| Event::Challenge),
                )
            &&& a.point == seq![ch(g)]
            &&& cong(p, a.claim, line_total(n, b.coeff, f, ch(g)))
            &&& forall|k: int|
                1 <= k <= m ==> #[trigger] layer_checked(
                    p,
                    ch,
                    n,
                    k as nat,
                    gkr_check_layers(p, ch, check, n, (k - 1) as nat),
                    gkr_check_layers(p, ch, check, n, k as nat),
                )
            &&& b.point.len() == m + 1
        }),
    decreases m,
{
    if m == 0 {
        let (c1, f) = check.read_many(2 * n);
        let (c2, r) = c1.squeeze(ch);
        if check.err is Some {
            lemma_read_many_failed(check, 0, 2 * n);
            lemma_squeeze_many_failed(check, ch, n);
        }
        law_elements_read(check, 2 * n);
        if c1.err is Some {
            lemma_squeeze_many_failed(c1, ch, n);
        }
        law_challenges_drawn(c2, ch, n);
        let b = gkr_check_layers(p, ch, check, n, 0);
        lemma_cong_mod(p, line_total(n, b.coeff, f, r));
    } else {
        let k = (m - 1) as nat;
        let a = gkr_check_layers(p, ch, check, n, k);
        if a.check.err is Some {
            lemma_gkr_check_failed(p, ch, check, n, k, m);
        }
        lemma_gkr_layers(p, ch, check, n, k);
        law_layer_accepted(p, ch, a, n, m);
        let sh = Shape { p, ch, degree: 3, descending: false };
        law_rounds_checked(sh, a.check, a.claim, m);
    }
}

/// Two proofs of one layer that start alike and have the same rounds, and are both accepted, claim
/// values with the same weighted sum of products, but for the factor of the basis polynomial.
pub proof fn law_layer_values_bound(
    p: int,
    ch: Oracle,
    a: GkrChecking,
    b: GkrChecking,
    n: nat,
    k: nat,
)
    requires
        p > 0,
        a.coeff.len() == n,
        b.coeff == a.coeff,
        b.claim == a.claim,
        b.point == a.point,
        b.check.rx.hist == a.check.rx.hist,
        forall|i: int|
            0 <= i < 4 * k as int ==> #[trigger] a.check.rx.stream[i] == b.check.rx.stream[i],
        gkr_check_layer(p, ch, a, n, k).check.err is None,
        gkr_check_layer(p, ch, b, n, k).check.err is None,
    ensures
        ({
            let r = gkr_check_layer(p, ch, a, n, k).point.drop_last();
            let q = eq_points(a.point, r);
            cong(
                p,
                q * gate_total(n, a.coeff, elements(a.check.rx.stream, 4 * k as int, 2 * n)),
                q * gate_total(n, a.coeff, elements(b.check.rx.stream, 4 * k as int, 2 * n)),
            )
        }),
{
    let sh = Shape { p, ch, degree: 3, descending: false };
    law_layer_accepted(p, ch, a, n, k);
    law_layer_accepted(p, ch, b, n, k);
    assert(k as int * (sh.degree + 1) == 4 * k) by (nonlinear_arith)
        requires
            sh.degree == 3,
    ;
    lemma_same_rounds(sh, a.check, b.check, a.claim, k);
    let v = check_rounds(sh, a.check, a.claim, k);
    assert(gkr_check_layer(p, ch, a, n, k).point.drop_last() =~= v.point);
}

} // verus!
