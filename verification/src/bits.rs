//! Powers of two and the bits of indices.
use vstd::prelude::*;
use crate::algebra::{lemma_two_to_positive, two_to};

verus! {

/// The number of bits of `n` without the leading one.
pub open spec fn log2_of(n: nat) -> nat
    decreases n,
{
    if n <= 1 {
        0
    } else {
        1 + log2_of(n / 2)
    }
}

/// Whether `n` is a power of two.
pub open spec fn is_power_of_two(n: nat) -> bool {
    n == two_to(log2_of(n))
}

pub proof fn lemma_log2_two_to(k: nat)
    ensures
        log2_of(two_to(k)) == k,
        is_power_of_two(two_to(k)),
    decreases k,
{
    if k > 0 {
        lemma_log2_two_to((k - 1) as nat);
        lemma_two_to_positive(k);
        assert(two_to(k) / 2 == two_to((k - 1) as nat));
    }
}

pub proof fn lemma_log2_bounds(n: nat)
    requires
        n >= 1,
    ensures
        two_to(log2_of(n)) <= n < two_to(log2_of(n) + 1),
    decreases n,
{
    if n > 1 {
        lemma_log2_bounds(n / 2);
    } else {
        assert(two_to(1) == 2 * two_to(0));
    }
}

/// The position of the highest bit of `n` that is set.
pub fn log2(n: usize) -> (r: usize)
    requires
        n >= 1,
    ensures
        r == log2_of(n as nat),
        r < usize::BITS,
{
    let mut m: usize = n;
    let mut r: usize = 0;
    proof {
        lemma_log2_below(n);
    }
    while m > 1
        invariant
            m >= 1,
            log2_of(n as nat) < usize::BITS,
            r + log2_of(m as nat) == log2_of(n as nat),
        decreases m,
    {
        m = m / 2;
        r += 1;
    }
    r
}

pub proof fn lemma_log2_below(n: usize)
    requires
        n >= 1,
    ensures
        log2_of(n as nat) < usize::BITS,
{
    lemma_log2_bounds(n as nat);
    if log2_of(n as nat) >= usize::BITS {
        crate::algebra::lemma_two_to_monotone(usize::BITS as nat, log2_of(n as nat));
        lemma_two_to_word();
    }
}

pub proof fn lemma_two_to_word()
    ensures
        two_to(32) == 0x1_0000_0000,
        two_to(64) == 0x1_0000_0000_0000_0000,
        two_to(usize::BITS as nat) == usize::MAX + 1,
{
    reveal_with_fuel(two_to, 33);
    assert(two_to(32) == 0x1_0000_0000);
    crate::algebra::lemma_two_to_add(32, 32);
    assert(two_to(64) == two_to(32) * two_to(32));
    assert(0x1_0000_0000 * 0x1_0000_0000 == 0x1_0000_0000_0000_0000);
}

/// Two to the power of `k`.
pub fn pow_two(k: usize) -> (r: usize)
    requires
        two_to(k as nat) <= usize::MAX,
    ensures
        r == two_to(k as nat),
        r >= 1,
{
    let mut r: usize = 1;
    let mut i: usize = 0;
    while i < k
        invariant
            i <= k,
            two_to(k as nat) <= usize::MAX,
            r == two_to(i as nat),
            r >= 1,
        decreases k - i,
    {
        proof {
            crate::algebra::lemma_two_to_monotone((i + 1) as nat, k as nat);
        }
        r = r * 2;
        i += 1;
    }
    r
}

/// The exponent of the smallest power of two that is at least `n`.
pub open spec fn ceil_log2(n: nat) -> nat {
    if n <= 1 {
        0
    } else {
        log2_of((n - 1) as nat) + 1
    }
}

pub proof fn lemma_ceil_log2(n: nat)
    ensures
        n <= two_to(ceil_log2(n)),
        n >= 2 ==> two_to((ceil_log2(n) - 1) as nat) < n,
{
    if n >= 2 {
        lemma_log2_bounds((n - 1) as nat);
    }
}

/// The smallest power of two that is at least `n`.
pub fn next_power_of_two(n: usize) -> (r: usize)
    requires
        two_to(ceil_log2(n as nat)) <= usize::MAX,
    ensures
        r == two_to(ceil_log2(n as nat)),
        r >= n,
        r >= 1,
{
    proof {
        lemma_ceil_log2(n as nat);
    }
    if n <= 1 {
        1
    } else {
        let k = log2(n - 1) + 1;
        pow_two(k)
    }
}

/// The number with the lowest `bits` bits of `i` in reverse order.
pub open spec fn reversed(i: nat, bits: nat) -> nat
    decreases bits,
{
    if bits == 0 {
        0
    } else {
        (i % 2) * two_to((bits - 1) as nat) + reversed(i / 2, (bits - 1) as nat)
    }
}

pub proof fn lemma_reversed_bound(i: nat, bits: nat)
    ensures
        reversed(i, bits) < two_to(bits),
    decreases bits,
{
    if bits > 0 {
        lemma_reversed_bound(i / 2, (bits - 1) as nat);
        let t = two_to((bits - 1) as nat);
        assert((i % 2) * t <= t) by (nonlinear_arith)
            requires
                i % 2 <= 1,
                t >= 0,
        ;
    }
}

/// Reverses the lowest `num_bits` bits of `n`.
pub fn reverse_bits(n: usize, num_bits: usize) -> (r: usize)
    requires
        two_to(num_bits as nat) <= usize::MAX,
    ensures
        r == reversed(n as nat, num_bits as nat),
        r < two_to(num_bits as nat),
    decreases num_bits,
{
    proof {
        lemma_reversed_bound(n as nat, num_bits as nat);
    }
    if num_bits == 0 {
        0
    } else {
        proof {
            lemma_reversed_bound((n / 2) as nat, (num_bits - 1) as nat);
        }
        let rest = reverse_bits(n / 2, num_bits - 1);
        let top = pow_two(num_bits - 1);
        if n % 2 == 1 {
            assert(1 * two_to((num_bits - 1) as nat) == top);
            top + rest
        } else {
            assert(0 * two_to((num_bits - 1) as nat) == 0);
            rest
        }
    }
}

/// The bit `k` of the reversed number is the bit that is `k` below the highest of the number.
pub proof fn law_reversed(i: nat, bits: nat, k: nat)
    requires
        k < bits,
    ensures
        (reversed(i, bits) / two_to(k)) % 2 == (i / two_to((bits - 1 - k) as nat)) % 2,
    decreases bits,
{
    let b = (bits - 1) as nat;
    let r = reversed(i / 2, b);
    let t = i % 2;
    lemma_reversed_bound(i / 2, b);
    lemma_two_to_positive(k);
    lemma_two_to_positive(b);
    let m = two_to(b);
    if k == b {
        assert((t * m + r) / m == t) by (nonlinear_arith)
            requires
                0 <= r < m,
                0 <= t,
        ;
        assert(two_to(0) == 1);
        assert(i / 1 == i);
    } else {
        let j = (b - k) as nat;
        let (x, y) = (two_to(k), two_to(j));
        crate::algebra::lemma_two_to_add(k, j);
        assert(m == x * y);
        let q = r / x;
        vstd::arithmetic::div_mod::lemma_fundamental_div_mod(r as int, x as int);
        assert((t * m + r) / x == t * y + q) by (nonlinear_arith)
            requires
                m == x * y,
                x > 0,
                r == x * q + r % x,
                0 <= r % x < x,
        ;
        let z = two_to((j - 1) as nat);
        assert(y == 2 * z);
        assert(t * y == 2 * (t * z)) by (nonlinear_arith)
            requires
                y == 2 * z,
        ;
        assert((t * y + q) % 2 == q % 2);
        law_reversed(i / 2, b, k);
        lemma_two_to_positive((b - 1 - k) as nat);
        let w = two_to((b - 1 - k) as nat);
        vstd::arithmetic::div_mod::lemma_div_denominator(i as int, 2, w as int);
        assert(two_to((bits - 1 - k) as nat) == 2 * w);
    }
}

} // verus!
