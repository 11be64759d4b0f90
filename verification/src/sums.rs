//! Finite sums of integers.
use vstd::prelude::*;
use crate::algebra::{cong, cong_seq, lemma_cong_add, lemma_cong_mul};

verus! {

/// The sum of the entries of `s`.
pub open spec fn sum(s: Seq<int>) -> int
    decreases s.len(),
{
    if s.len() == 0 {
        0
    } else {
        sum(s.drop_last()) + s.last()
    }
}

/// The sum of `f(i)` for `i` from 0 to `n - 1`.
pub open spec fn sum_of(n: nat, f: spec_fn(int) -> int) -> int {
    sum(Seq::new(n, f))
}

/// The inner product of `a` and `b`, over the length of the shorter of the two.
pub open spec fn dot(a: Seq<int>, b: Seq<int>) -> int {
    sum(Seq::new(if a.len() <= b.len() { a.len() } else { b.len() }, |i: int| a[i] * b[i]))
}

pub proof fn lemma_sum_step(n: nat, f: spec_fn(int) -> int)
    ensures
        sum_of(n + 1, f) == sum_of(n, f) + f(n as int),
        sum_of(0, f) == 0,
{
    assert(Seq::new(n + 1, f).drop_last() =~= Seq::new(n, f));
}

pub proof fn lemma_sum_ext(n: nat, f: spec_fn(int) -> int, g: spec_fn(int) -> int)
    requires
        forall|i: int| 0 <= i < n ==> #[trigger] f(i) == g(i),
    ensures
        sum_of(n, f) == sum_of(n, g),
{
    assert(Seq::new(n, f) =~= Seq::new(n, g));
}

pub proof fn lemma_sum_cong(p: int, a: Seq<int>, b: Seq<int>)
    requires
        p > 0,
        cong_seq(p, a, b),
    ensures
        cong(p, sum(a), sum(b)),
    decreases a.len(),
{
    if a.len() > 0 {
        assert(cong(p, a[a.len() - 1], b[b.len() - 1]));
        lemma_sum_cong(p, a.drop_last(), b.drop_last());
        lemma_cong_add(p, sum(a.drop_last()), sum(b.drop_last()), a.last(), b.last());
    }
}

pub proof fn lemma_sum_add(a: Seq<int>, b: Seq<int>)
    requires
        a.len() == b.len(),
    ensures
        sum(Seq::new(a.len(), |i: int| a[i] + b[i])) == sum(a) + sum(b),
    decreases a.len(),
{
    let c = Seq::new(a.len(), |i: int| a[i] + b[i]);
    if a.len() > 0 {
        let a1 = a.drop_last();
        let b1 = b.drop_last();
        lemma_sum_add(a1, b1);
        assert(c.drop_last() =~= Seq::new(a1.len(), |i: int| a1[i] + b1[i]));
    }
}

pub proof fn lemma_sum_scale(c: int, a: Seq<int>)
    ensures
        sum(Seq::new(a.len(), |i: int| c * a[i])) == c * sum(a),
    decreases a.len(),
{
    let s = Seq::new(a.len(), |i: int| c * a[i]);
    if a.len() > 0 {
        let a1 = a.drop_last();
        lemma_sum_scale(c, a1);
        assert(s.drop_last() =~= Seq::new(a1.len(), |i: int| c * a1[i]));
        assert(c * sum(a1) + c * a.last() == c * (sum(a1) + a.last())) by (nonlinear_arith);
    } else {
        assert(c * 0 == 0) by (nonlinear_arith);
    }
}

pub proof fn lemma_sum_concat(a: Seq<int>, b: Seq<int>)
    ensures
        sum(a + b) == sum(a) + sum(b),
    decreases b.len(),
{
    if b.len() > 0 {
        lemma_sum_concat(a, b.drop_last());
        assert((a + b).drop_last() =~= a + b.drop_last());
    } else {
        assert(a + b =~= a);
    }
}

pub proof fn lemma_sum_zero(a: Seq<int>)
    requires
        forall|i: int| 0 <= i < a.len() ==> #[trigger] a[i] == 0,
    ensures
        sum(a) == 0,
    decreases a.len(),
{
    if a.len() > 0 {
        lemma_sum_zero(a.drop_last());
    }
}

/// Congruent factors have congruent inner products.
pub proof fn lemma_dot_cong(p: int, a: Seq<int>, b: Seq<int>, c: Seq<int>, d: Seq<int>)
    requires
        p > 0,
        cong_seq(p, a, b),
        cong_seq(p, c, d),
    ensures
        cong(p, dot(a, c), dot(b, d)),
{
    let n = if a.len() <= c.len() { a.len() } else { c.len() };
    let x = Seq::new(n, |i: int| a[i] * c[i]);
    let y = Seq::new(n, |i: int| b[i] * d[i]);
    assert forall|i: int| 0 <= i < n implies cong(p, #[trigger] x[i], y[i]) by {
        assert(cong(p, a[i], b[i]));
        assert(cong(p, c[i], d[i]));
        lemma_cong_mul(p, a[i], b[i], c[i], d[i]);
    }
    lemma_sum_cong(p, x, y);
}

/// A table is congruent to its reduction.
pub proof fn lemma_reduced_cong(p: int, a: Seq<int>)
    requires
        p > 0,
    ensures
        cong_seq(p, Seq::new(a.len(), |i: int| a[i] % p), a),
{
    let r = Seq::new(a.len(), |i: int| a[i] % p);
    assert forall|i: int| 0 <= i < a.len() implies cong(p, #[trigger] r[i], a[i]) by {
        crate::algebra::lemma_cong_mod(p, a[i]);
    }
}

/// A sum may be taken pair by pair.
pub proof fn lemma_sum_pairs(s: Seq<int>, n: nat)
    requires
        s.len() == 2 * n,
    ensures
        sum(s) == sum(Seq::new(n, |k: int| s[2 * k] + s[2 * k + 1])),
    decreases n,
{
    let t = Seq::new(n, |k: int| s[2 * k] + s[2 * k + 1]);
    if n > 0 {
        let s1 = s.take(2 * n - 2);
        lemma_sum_pairs(s1, (n - 1) as nat);
        assert(t.drop_last() =~= Seq::new((n - 1) as nat, |k: int| s1[2 * k] + s1[2 * k + 1]));
        assert(s.drop_last().drop_last() =~= s1);
        assert(s.drop_last().last() == s[2 * n - 2]);
        assert(sum(s.drop_last()) == sum(s1) + s[2 * n - 2]);
    }
}

/// The order of two summations does not matter.
pub proof fn lemma_sum_exchange(m: nat, n: nat, f: spec_fn(int, int) -> int)
    ensures
        sum_of(m, |i: int| sum_of(n, |j: int| f(i, j))) == sum_of(
            n,
            |j: int| sum_of(m, |i: int| f(i, j)),
        ),
    decreases m,
{
    let inner = |i: int| sum_of(n, |j: int| f(i, j));
    if m == 0 {
        let z = Seq::new(n, |j: int| sum_of(0, |i: int| f(i, j)));
        assert forall|j: int| 0 <= j < n implies #[trigger] z[j] == 0 by {
            lemma_sum_step(0, |i: int| f(i, j));
        }
        lemma_sum_zero(z);
        lemma_sum_step(0, inner);
    } else {
        let k = (m - 1) as nat;
        lemma_sum_exchange(k, n, f);
        lemma_sum_step(k, inner);
        let a = Seq::new(n, |j: int| sum_of(k, |i: int| f(i, j)));
        let b = Seq::new(n, |j: int| f(k as int, j));
        let c = Seq::new(n, |j: int| sum_of(m, |i: int| f(i, j)));
        lemma_sum_add(a, b);
        assert forall|j: int| 0 <= j < n implies #[trigger] c[j] == a[j] + b[j] by {
            lemma_sum_step(k, |i: int| f(i, j));
        }
        assert(c =~= Seq::new(a.len(), |j: int| a[j] + b[j]));
    }
}

/// A common factor may be taken out of a sum.
pub proof fn lemma_sum_factor(n: nat, c: int, f: spec_fn(int) -> int)
    ensures
        sum_of(n, |i: int| c * f(i)) == c * sum_of(n, f),
{
    let a = Seq::new(n, f);
    lemma_sum_scale(c, a);
    assert(Seq::new(n, |i: int| c * f(i)) =~= Seq::new(a.len(), |i: int| c * a[i]));
}

/// Sums of congruent terms are congruent.
pub proof fn lemma_sum_of_cong(p: int, n: nat, f: spec_fn(int) -> int, g: spec_fn(int) -> int)
    requires
        p > 0,
        forall|i: int| 0 <= i < n ==> cong(p, #[trigger] f(i), g(i)),
    ensures
        cong(p, sum_of(n, f), sum_of(n, g)),
{
    let a = Seq::new(n, f);
    let b = Seq::new(n, g);
    assert forall|i: int| 0 <= i < n implies cong(p, #[trigger] a[i], b[i]) by {
        assert(cong(p, f(i), g(i)));
    }
    lemma_sum_cong(p, a, b);
}

} // verus!
