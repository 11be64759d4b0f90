//! Arithmetic modulo an integer, on which every field computation rests.
use vstd::prelude::*;
use vstd::arithmetic::div_mod::{
    lemma_add_mod_noop, lemma_mod_bound, lemma_mod_twice, lemma_mul_mod_noop, lemma_sub_mod_noop,
    lemma_fundamental_div_mod, lemma_small_mod, lemma_mod_multiples_vanish,
};

verus! {

/// `a` and `b` leave the same remainder modulo `p`.
pub open spec fn cong(p: int, a: int, b: int) -> bool {
    a % p == b % p
}

pub proof fn lemma_mod_canonical(p: int, a: int)
    requires
        p > 0,
    ensures
        0 <= a % p < p,
        (a % p) % p == a % p,
{
    lemma_mod_bound(a, p);
    lemma_mod_twice(a, p);
}

pub proof fn lemma_mod_small(p: int, a: int)
    requires
        0 <= a < p,
    ensures
        a % p == a,
{
    lemma_small_mod(a as nat, p as nat);
}

pub proof fn lemma_cong_add(p: int, a: int, b: int, c: int, d: int)
    requires
        p > 0,
        cong(p, a, b),
        cong(p, c, d),
    ensures
        cong(p, a + c, b + d),
{
    lemma_add_mod_noop(a, c, p);
    lemma_add_mod_noop(b, d, p);
}

pub proof fn lemma_cong_sub(p: int, a: int, b: int, c: int, d: int)
    requires
        p > 0,
        cong(p, a, b),
        cong(p, c, d),
    ensures
        cong(p, a - c, b - d),
{
    lemma_sub_mod_noop(a, c, p);
    lemma_sub_mod_noop(b, d, p);
}

pub proof fn lemma_cong_mul(p: int, a: int, b: int, c: int, d: int)
    requires
        p > 0,
        cong(p, a, b),
        cong(p, c, d),
    ensures
        cong(p, a * c, b * d),
{
    lemma_mul_mod_noop(a, c, p);
    lemma_mul_mod_noop(b, d, p);
}

/// A remainder may stand for the number it was taken of.
pub proof fn lemma_cong_mod(p: int, a: int)
    requires
        p > 0,
    ensures
        cong(p, a % p, a),
{
    lemma_mod_twice(a, p);
}

/// Two canonical representatives of one residue are equal.
pub proof fn lemma_canonical_unique(p: int, a: int, b: int)
    requires
        0 <= a < p,
        0 <= b < p,
        cong(p, a, b),
    ensures
        a == b,
{
    lemma_mod_small(p, a);
    lemma_mod_small(p, b);
}

/// A difference that is a multiple of `p` is what congruence means.
pub proof fn lemma_cong_multiple(p: int, a: int, b: int, k: int)
    requires
        p > 0,
        a == b + k * p,
    ensures
        cong(p, a, b),
{
    lemma_mod_multiples_vanish(k, b, p);
    assert(p * k + b == a) by (nonlinear_arith)
        requires
            a == b + k * p,
    ;
}

pub proof fn lemma_cong_witness(p: int, a: int, b: int) -> (k: int)
    requires
        p > 0,
        cong(p, a, b),
    ensures
        a == b + k * p,
{
    lemma_fundamental_div_mod(a, p);
    lemma_fundamental_div_mod(b, p);
    let k = a / p - b / p;
    assert(p * (a / p) - p * (b / p) == k * p) by (nonlinear_arith)
        requires
            k == a / p - b / p,
    ;
    k
}

/// Two is not a divisor of zero modulo an odd number.
pub proof fn lemma_halve(p: int, a: int)
    requires
        p > 0,
        p % 2 == 1,
        cong(p, 2 * a, 0),
    ensures
        cong(p, a, 0),
{
    let k = lemma_cong_witness(p, 2 * a, 0);
    let h = p / 2;
    assert(k * p == 2 * (k * h) + k) by (nonlinear_arith)
        requires
            p == 2 * h + 1,
    ;
    let m = k / 2;
    assert(k == 2 * m);
    assert(a == m * p) by (nonlinear_arith)
        requires
            2 * a == k * p,
            k == 2 * m,
    ;
    lemma_cong_multiple(p, a, 0, m);
}

/// Three is not a divisor of zero modulo a number that it does not divide.
pub proof fn lemma_third(p: int, a: int)
    requires
        p > 0,
        p % 3 != 0,
        cong(p, 3 * a, 0),
    ensures
        cong(p, a, 0),
{
    let k = lemma_cong_witness(p, 3 * a, 0);
    let h = p / 3;
    let c = p % 3;
    assert(k * p == 3 * (k * h) + c * k) by (nonlinear_arith)
        requires
            p == 3 * h + c,
    ;
    if c == 1 {
        assert(c * k == k) by (nonlinear_arith)
            requires
                c == 1,
        ;
    } else {
        assert(c * k == 2 * k) by (nonlinear_arith)
            requires
                c == 2,
        ;
    }
    assert(k % 3 == 0);
    let m = k / 3;
    assert(a == m * p) by (nonlinear_arith)
        requires
            3 * a == k * p,
            k == 3 * m,
    ;
    lemma_cong_multiple(p, a, 0, m);
}

/// What is congruent to zero can be cancelled against an invertible factor.
pub proof fn lemma_cancel_invertible(p: int, u: int, v: int, a: int, b: int)
    requires
        p > 0,
        cong(p, u * v, 1),
        cong(p, u * a, u * b),
    ensures
        cong(p, a, b),
{
    lemma_cong_mul(p, v, v, u * a, u * b);
    assert(v * (u * a) == (u * v) * a) by (nonlinear_arith);
    assert(v * (u * b) == (u * v) * b) by (nonlinear_arith);
    lemma_cong_mul(p, u * v, 1, a, a);
    lemma_cong_mul(p, u * v, 1, b, b);
}

/// Every entry of `s` is the canonical representative of its residue.
pub open spec fn canonical(p: int, s: Seq<int>) -> bool {
    forall|i: int| 0 <= i < s.len() ==> 0 <= #[trigger] s[i] < p
}

/// Entry-wise congruence of two sequences.
pub open spec fn cong_seq(p: int, a: Seq<int>, b: Seq<int>) -> bool {
    &&& a.len() == b.len()
    &&& forall|i: int| 0 <= i < a.len() ==> cong(p, #[trigger] a[i], b[i])
}

/// Two to the power of `n`.
pub open spec fn two_to(n: nat) -> nat
    decreases n,
{
    if n == 0 {
        1
    } else {
        2 * two_to((n - 1) as nat)
    }
}

pub proof fn lemma_two_to_positive(n: nat)
    ensures
        two_to(n) >= 1,
        n >= 1 ==> two_to(n) >= 2,
    decreases n,
{
    if n > 0 {
        lemma_two_to_positive((n - 1) as nat);
    }
}

pub proof fn lemma_two_to_add(a: nat, b: nat)
    ensures
        two_to(a + b) == two_to(a) * two_to(b),
    decreases a,
{
    if a > 0 {
        lemma_two_to_add((a - 1) as nat, b);
        assert(two_to((a - 1) as nat + b) == two_to((a + b - 1) as nat));
        assert(2 * (two_to((a - 1) as nat) * two_to(b)) == (2 * two_to((a - 1) as nat)) * two_to(b))
            by (nonlinear_arith);
    } else {
        assert(1 * two_to(b) == two_to(b)) by (nonlinear_arith);
    }
}

pub proof fn lemma_two_to_monotone(a: nat, b: nat)
    requires
        a <= b,
    ensures
        two_to(a) <= two_to(b),
    decreases b,
{
    if a < b {
        lemma_two_to_monotone(a, (b - 1) as nat);
    }
}

} // verus!
