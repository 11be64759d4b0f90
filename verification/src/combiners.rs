//! The polynomials that the sum-checks of the library run over.
use vstd::prelude::*;
use vstd::arithmetic::div_mod::lemma_add_mod_noop;
use crate::algebra::{
    cong, cong_seq, lemma_cong_add, lemma_cong_mod, lemma_cong_mul, lemma_mod_small,
};
use crate::brakingbase_helper::lemma_poly_at_3;
use crate::field::{PrimeField, vals};
use crate::gkr::helper::lemma_poly_at_4;
use crate::multilinear::poly_at;
use crate::sums::{lemma_sum_ext, lemma_sum_step, sum_of};
use crate::rounds::{Comb, Combiner, affine, degree_along, has_degree, is_along, respects};

verus! {

/// `c` times the product of two entries.
pub open spec fn prod2(c: int, i: int, j: int) -> Comb {
    |v: Seq<int>| c * (v[i] * v[j])
}

/// `c` times the product of three entries.
pub open spec fn prod3(c: int, i: int, j: int, k: int) -> Comb {
    |v: Seq<int>| c * (v[i] * v[j] * v[k])
}

pub proof fn lemma_prod2(p: int, c: int, i: int, j: int, m: nat)
    requires
        p > 0,
        0 <= i < m,
        0 <= j < m,
    ensures
        has_degree(prod2(c, i, j), m, 2),
        respects(p, prod2(c, i, j), m),
{
    let f = prod2(c, i, j);
    assert forall|u: Seq<int>, v: Seq<int>|
        u.len() == m && v.len() == m implies #[trigger] degree_along(f, u, v, 2) by {
        let (a, b, d, e) = (u[i], v[i], u[j], v[j]);
        let g = seq![c * (a * d), c * (a * e + b * d), c * (b * e)];
        assert forall|x: int| #[trigger] poly_at(g, x) == f(affine(u, v, x)) by {
            lemma_poly_at_3(g, x);
            lemma_product_of_lines(a, b, d, e, x);
            lemma_scaled_quadratic(c, a * d, a * e + b * d, b * e, x);
        }
        assert(is_along(f, u, v, 2, g));
    }
    assert forall|a: Seq<int>, b: Seq<int>|
        a.len() == m && #[trigger] cong_seq(p, a, b) implies cong(p, f(a), f(b)) by {
        assert(cong(p, a[i], b[i]));
        assert(cong(p, a[j], b[j]));
        lemma_cong_mul(p, a[i], b[i], a[j], b[j]);
        lemma_cong_mul(p, c, c, a[i] * a[j], b[i] * b[j]);
    }
}

pub proof fn lemma_prod3(p: int, c: int, i: int, j: int, k: int, m: nat)
    requires
        p > 0,
        0 <= i < m,
        0 <= j < m,
        0 <= k < m,
    ensures
        has_degree(prod3(c, i, j, k), m, 3),
        respects(p, prod3(c, i, j, k), m),
{
    let f = prod3(c, i, j, k);
    assert forall|u: Seq<int>, v: Seq<int>|
        u.len() == m && v.len() == m implies #[trigger] degree_along(f, u, v, 3) by {
        let (a, b, d, e, h, l) = (u[i], v[i], u[j], v[j], u[k], v[k]);
        let g = seq![
            c * (a * d * h),
            c * (a * d * l + a * e * h + b * d * h),
            c * (a * e * l + b * d * l + b * e * h),
            c * (b * e * l),
        ];
        assert forall|x: int| #[trigger] poly_at(g, x) == f(affine(u, v, x)) by {
            lemma_poly_at_4(g, x);
            lemma_expand_cubic(c, a, b, d, e, h, l, x);
        }
        assert(is_along(f, u, v, 3, g));
    }
    assert forall|a: Seq<int>, b: Seq<int>|
        a.len() == m && #[trigger] cong_seq(p, a, b) implies cong(p, f(a), f(b)) by {
        assert(cong(p, a[i], b[i]));
        assert(cong(p, a[j], b[j]));
        assert(cong(p, a[k], b[k]));
        lemma_cong_mul(p, a[i], b[i], a[j], b[j]);
        lemma_cong_mul(p, a[i] * a[j], b[i] * b[j], a[k], b[k]);
        lemma_cong_mul(p, c, c, a[i] * a[j] * a[k], b[i] * b[j] * b[k]);
    }
}

proof fn lemma_product_of_lines(a: int, b: int, d: int, e: int, x: int)
    ensures
        (a + b * x) * (d + e * x) == a * d + (a * e + b * d) * x + (b * e) * (x * x),
{
    let (y, z) = (b * x, e * x);
    assert((a + y) * (d + z) == a * d + a * z + y * d + y * z) by (nonlinear_arith);
    assert(a * (e * x) == (a * e) * x) by (nonlinear_arith);
    assert((b * x) * d == (b * d) * x) by (nonlinear_arith);
    assert((b * x) * (e * x) == (b * e) * (x * x)) by (nonlinear_arith);
    assert((a * e + b * d) * x == (a * e) * x + (b * d) * x) by (nonlinear_arith);
}

proof fn lemma_scaled_quadratic(c: int, q0: int, q1: int, q2: int, x: int)
    ensures
        c * q0 + x * (c * q1) + (x * x) * (c * q2) == c * (q0 + q1 * x + q2 * (x * x)),
{
    let xx = x * x;
    let (s, t) = (q1 * x, q2 * xx);
    assert(c * (q0 + s + t) == c * q0 + c * s + c * t) by (nonlinear_arith);
    assert(c * (q1 * x) == x * (c * q1)) by (nonlinear_arith);
    assert(c * (q2 * xx) == xx * (c * q2)) by (nonlinear_arith);
}

proof fn lemma_expand_cubic(c: int, a: int, b: int, d: int, e: int, h: int, l: int, x: int)
    ensures
        c * (a * d * h) + x * (c * (a * d * l + a * e * h + b * d * h)) + (x * x) * (c * (a * e * l
            + b * d * l + b * e * h)) + (x * x * x) * (c * (b * e * l)) == c * ((a + b * x) * (d + e
            * x) * (h + l * x)),
{
    let q0 = a * d;
    let q1 = a * e + b * d;
    let q2 = b * e;
    lemma_product_of_lines(a, b, d, e, x);
    let xx = x * x;
    let xxx = xx * x;
    let (y, z, w) = (q1 * x, q2 * xx, l * x);
    assert((q0 + y + z) * (h + w) == q0 * h + q0 * w + y * h + y * w + z * h + z * w) by (nonlinear_arith);
    assert(q0 * (l * x) == (q0 * l) * x) by (nonlinear_arith);
    assert((q1 * x) * h == (q1 * h) * x) by (nonlinear_arith);
    assert((q1 * x) * (l * x) == (q1 * l) * (x * x)) by (nonlinear_arith);
    assert((q2 * xx) * h == (q2 * h) * xx) by (nonlinear_arith);
    assert((q2 * xx) * (l * x) == (q2 * l) * (xx * x)) by (nonlinear_arith);
    let t0 = a * d * h;
    let t1 = a * d * l + a * e * h + b * d * h;
    let t2 = a * e * l + b * d * l + b * e * h;
    let t3 = b * e * l;
    assert((a * e + b * d) * h == a * e * h + b * d * h) by (nonlinear_arith);
    assert((a * e + b * d) * l == a * e * l + b * d * l) by (nonlinear_arith);
    let (m1, m2) = (q0 * l, q1 * h);
    assert((m1 + m2) * x == m1 * x + m2 * x) by (nonlinear_arith);
    let (n1, n2) = (q1 * l, q2 * h);
    assert((n1 + n2) * xx == n1 * xx + n2 * xx) by (nonlinear_arith);
    assert((q0 + y + z) * (h + w) == t0 + t1 * x + t2 * xx + t3 * xxx);
    lemma_scaled_quadratic(c, t0, t1, t2, x);
    let u = t0 + t1 * x + t2 * xx;
    let v = t3 * xxx;
    assert(c * (u + v) == c * u + c * v) by (nonlinear_arith);
    assert(c * (t3 * xxx) == xxx * (c * t3)) by (nonlinear_arith);
}

/// A quadratic is a cubic, too.
pub proof fn lemma_degree_lift(comb: Comb, m: nat)
    requires
        has_degree(comb, m, 2),
    ensures
        has_degree(comb, m, 3),
{
    assert forall|u: Seq<int>, v: Seq<int>|
        u.len() == m && v.len() == m implies #[trigger] degree_along(comb, u, v, 3) by {
        assert(degree_along(comb, u, v, 2));
        let h = choose|g: Seq<int>| is_along(comb, u, v, 2, g);
        assert(is_along(comb, u, v, 2, h));
        let g = h.push(0);
        assert forall|x: int| #[trigger] poly_at(g, x) == comb(affine(u, v, x)) by {
            lemma_poly_at_4(g, x);
            lemma_poly_at_3(h, x);
            assert(poly_at(h, x) == comb(affine(u, v, x)));
            assert((x * x * x) * 0 == 0) by (nonlinear_arith);
        }
        assert(is_along(comb, u, v, 3, g));
    }
}

/// Degree and congruence pass to a sum.
pub proof fn lemma_comb_sum(p: int, f: Comb, g: Comb, h: Comb, m: nat, degree: nat)
    requires
        p > 0,
        degree == 2 || degree == 3,
        has_degree(f, m, degree),
        has_degree(g, m, degree),
        respects(p, f, m),
        respects(p, g, m),
        forall|v: Seq<int>| #[trigger] h(v) == f(v) + g(v),
    ensures
        has_degree(h, m, degree),
        respects(p, h, m),
{
    assert forall|u: Seq<int>, v: Seq<int>|
        u.len() == m && v.len() == m implies #[trigger] degree_along(h, u, v, degree) by {
        assert(degree_along(f, u, v, degree));
        assert(degree_along(g, u, v, degree));
        let a = choose|q: Seq<int>| is_along(f, u, v, degree, q);
        let b = choose|q: Seq<int>| is_along(g, u, v, degree, q);
        assert(is_along(f, u, v, degree, a));
        assert(is_along(g, u, v, degree, b));
        let q = Seq::new(degree + 1, |i: int| a[i] + b[i]);
        assert forall|x: int| #[trigger] poly_at(q, x) == h(affine(u, v, x)) by {
            assert(q =~= Seq::new(a.len(), |i: int| a[i] + b[i]));
            crate::rounds::lemma_poly_add(a, b, x);
            assert(poly_at(a, x) == f(affine(u, v, x)));
            assert(poly_at(b, x) == g(affine(u, v, x)));
        }
        assert(is_along(h, u, v, degree, q));
    }
    assert forall|a: Seq<int>, b: Seq<int>|
        a.len() == m && #[trigger] cong_seq(p, a, b) implies cong(p, h(a), h(b)) by {
        lemma_cong_add(p, f(a), f(b), g(a), g(b));
    }
}

/// The polynomial zero.
pub proof fn lemma_comb_zero(p: int, h: Comb, m: nat, degree: nat)
    requires
        degree == 2 || degree == 3,
        forall|v: Seq<int>| #[trigger] h(v) == 0,
    ensures
        has_degree(h, m, degree),
        respects(p, h, m),
{
    assert forall|u: Seq<int>, v: Seq<int>|
        u.len() == m && v.len() == m implies #[trigger] degree_along(h, u, v, degree) by {
        let q = Seq::new(degree + 1, |i: int| 0int);
        assert forall|x: int| #[trigger] poly_at(q, x) == h(affine(u, v, x)) by {
            crate::rounds::lemma_poly_zero(degree + 1, x);
        }
        assert(is_along(h, u, v, degree, q));
    }
}

/// `c * (a * b)`.
pub fn term2<F: PrimeField>(c: F, a: F, b: F) -> (r: F)
    ensures
        r.value() == (c.value() * (a.value() * b.value())) % F::modulus(),
{
    let m = a.mul(b);
    let r = c.mul(m);
    proof {
        F::lemma_modulus();
        let p = F::modulus();
        lemma_cong_mod(p, a.value() * b.value());
        lemma_cong_mul(p, c.value(), c.value(), m.value(), a.value() * b.value());
    }
    r
}

/// `c * (a * b * d)`.
pub fn term3<F: PrimeField>(c: F, a: F, b: F, d: F) -> (r: F)
    ensures
        r.value() == (c.value() * (a.value() * b.value() * d.value())) % F::modulus(),
{
    let ab = a.mul(b);
    let m = ab.mul(d);
    let r = c.mul(m);
    proof {
        F::lemma_modulus();
        let p = F::modulus();
        let (av, bv, cv, dv) = (a.value(), b.value(), c.value(), d.value());
        lemma_cong_mod(p, av * bv);
        lemma_cong_mul(p, ab.value(), av * bv, dv, dv);
        lemma_cong_mod(p, ab.value() * dv);
        lemma_cong_mul(p, cv, cv, m.value(), av * bv * dv);
    }
    r
}

/// The sum of the products of the first `k` of `n` pairs, each an entry of the first half of the
/// values and one of the second.
pub open spec fn pair_sum(v: Seq<int>, n: nat, k: nat) -> int {
    sum_of(k, |i: int| v[i] * v[n + i])
}

/// The sum of the products of `n` pairs.
pub open spec fn pair_comb(n: nat) -> Comb {
    |v: Seq<int>| pair_sum(v, n, n)
}

proof fn lemma_pair_partial(p: int, n: nat, k: nat)
    requires
        p > 0,
        k <= n,
    ensures
        ({
            let f = |v: Seq<int>| pair_sum(v, n, k);
            &&& has_degree(f, 2 * n, 2)
            &&& respects(p, f, 2 * n)
        }),
    decreases k,
{
    let f = |v: Seq<int>| pair_sum(v, n, k);
    if k == 0 {
        assert forall|v: Seq<int>| #[trigger] f(v) == 0 by {
            lemma_sum_step(0, |i: int| v[i] * v[n + i]);
        }
        lemma_comb_zero(p, f, 2 * n, 2);
    } else {
        let i = k - 1;
        lemma_pair_partial(p, n, i as nat);
        let g = |v: Seq<int>| pair_sum(v, n, i as nat);
        let h = prod2(1, i, n + i);
        lemma_prod2(p, 1, i, n + i, 2 * n);
        assert forall|v: Seq<int>| #[trigger] f(v) == g(v) + h(v) by {
            lemma_sum_step(i as nat, |i: int| v[i] * v[n + i]);
            assert(1 * (v[i] * v[n + i]) == v[i] * v[n + i]);
        }
        lemma_comb_sum(p, g, h, f, 2 * n, 2);
    }
}

pub proof fn lemma_pair_comb(p: int, n: nat)
    requires
        p > 0,
    ensures
        has_degree(pair_comb(n), 2 * n, 2),
        respects(p, pair_comb(n), 2 * n),
{
    lemma_pair_partial(p, n, n);
    let f = |v: Seq<int>| pair_sum(v, n, n);
    assert(f =~= pair_comb(n));
}

/// The sum of the products of pairs of tables.
pub struct PairCombiner {
    pub pairs: usize,
}

impl<F: PrimeField> Combiner<F> for PairCombiner {
    open spec fn comb(&self) -> Comb {
        pair_comb(self.pairs as nat)
    }

    open spec fn arity(&self) -> nat {
        2 * self.pairs as nat
    }

    open spec fn degree(&self) -> nat {
        2
    }

    proof fn lemma_combiner(&self) {
        F::lemma_modulus();
        lemma_pair_comb(F::modulus(), self.pairs as nat);
    }

    fn combine(&self, values: &Vec<F>) -> (r: F) {
        let n = self.pairs;
        let len = values.len();
        let ghost p = F::modulus();
        let ghost v = vals(values@);
        let ghost f = |i: int| v[i] * v[n + i];
        let mut acc = F::zero();
        let mut i: usize = 0;
        proof {
            F::lemma_modulus();
            lemma_mod_small(p, 0);
            lemma_sum_step(0, f);
        }
        while i < n
            invariant
                i <= n,
                len == values@.len(),
                len == 2 * n,
                p == F::modulus(),
                p > 6,
                v == vals(values@),
                f == (|i: int| v[i] * v[n + i]),
                acc.value() == sum_of(i as nat, f) % p,
            decreases n - i,
        {
            let t = values[i].mul(values[n + i]);
            let next = acc.add(t);
            proof {
                lemma_sum_step(i as nat, f);
                lemma_add_mod_noop(sum_of(i as nat, f), f(i as int), p);
            }
            acc = next;
            i += 1;
        }
        proof {
            lemma_sum_ext(n as nat, f, |i: int| v[i] * v[n as nat + i]);
        }
        acc
    }

    fn is_cubic(&self) -> (r: bool) {
        false
    }
}

} // verus!
