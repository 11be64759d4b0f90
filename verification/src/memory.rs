//! Offline memory checking: reads and writes as factors of products.
use vstd::prelude::*;
use crate::algebra::{cong, cong_seq, lemma_cong_mul};

verus! {

/// The product of the entries of `s`.
pub open spec fn product(s: Seq<int>) -> int
    decreases s.len(),
{
    if s.len() == 0 {
        1
    } else {
        product(s.drop_last()) * s.last()
    }
}

pub proof fn lemma_product_cong(p: int, a: Seq<int>, b: Seq<int>)
    requires
        p > 0,
        cong_seq(p, a, b),
    ensures
        cong(p, product(a), product(b)),
    decreases a.len(),
{
    if a.len() > 0 {
        assert(cong(p, a[a.len() - 1], b[b.len() - 1]));
        lemma_product_cong(p, a.drop_last(), b.drop_last());
        lemma_cong_mul(p, product(a.drop_last()), product(b.drop_last()), a.last(), b.last());
    }
}

/// A product may be taken pair by pair.
pub proof fn lemma_product_pairs(s: Seq<int>, n: nat)
    requires
        s.len() == 2 * n,
    ensures
        product(s) == product(Seq::new(n, |k: int| s[2 * k] * s[2 * k + 1])),
    decreases n,
{
    let t = Seq::new(n, |k: int| s[2 * k] * s[2 * k + 1]);
    if n > 0 {
        let s1 = s.take(2 * n - 2);
        lemma_product_pairs(s1, (n - 1) as nat);
        assert(t.drop_last() =~= Seq::new((n - 1) as nat, |k: int| s1[2 * k] * s1[2 * k + 1]));
        assert(s.drop_last().drop_last() =~= s1);
        assert(s.drop_last().last() == s[2 * n - 2]);
        let (x, y, z) = (product(s1), s[2 * n - 2], s[2 * n - 1]);
        assert(product(s.drop_last()) == x * y);
        assert((x * y) * z == x * (y * z)) by (nonlinear_arith);
    }
}

/// Replacing one factor.
pub proof fn lemma_product_update(s: Seq<int>, i: int, x: int)
    requires
        0 <= i < s.len(),
    ensures
        product(s.update(i, x)) * s[i] == product(s) * x,
    decreases s.len(),
{
    let u = s.update(i, x);
    let a = product(s.drop_last());
    if i == s.len() - 1 {
        assert(u.drop_last() =~= s.drop_last());
        let y = s[i];
        assert((a * x) * y == (a * y) * x) by (nonlinear_arith);
    } else {
        lemma_product_update(s.drop_last(), i, x);
        assert(u.drop_last() =~= s.drop_last().update(i, x));
        let b = product(u.drop_last());
        let (y, z) = (s[i], s.last());
        assert(b * y == a * x);
        assert((b * z) * y == (a * z) * x) by (nonlinear_arith)
            requires
                b * y == a * x,
        ;
    }
}

/// How many of the first `n` reads go to the address `a`.
pub open spec fn reads_of(addresses: Seq<int>, a: int, n: nat) -> nat
    decreases n,
{
    if n == 0 {
        0
    } else {
        reads_of(addresses, a, (n - 1) as nat) + if addresses[n - 1] == a {
            1nat
        } else {
            0nat
        }
    }
}

/// The fingerprint of an address, the value it holds and the time of its last read.
pub open spec fn fingerprint(gamma: int, tau: int, a: int, v: int, t: int) -> int {
    a + gamma * v + (gamma * gamma) * t - tau
}

/// The fingerprints of a whole memory after `n` reads.
pub open spec fn memory_state(
    gamma: int,
    tau: int,
    values: Seq<int>,
    addresses: Seq<int>,
    n: nat,
) -> Seq<int> {
    Seq::new(
        values.len(),
        |a: int| fingerprint(gamma, tau, a, values[a], reads_of(addresses, a, n) as int),
    )
}

/// The fingerprints that the first `n` reads take out.
pub open spec fn reads_out(
    gamma: int,
    tau: int,
    values: Seq<int>,
    addresses: Seq<int>,
    n: nat,
) -> Seq<int> {
    Seq::new(
        n,
        |j: int|
            fingerprint(
                gamma,
                tau,
                addresses[j],
                values[addresses[j]],
                reads_of(addresses, addresses[j], j as nat) as int,
            ),
    )
}

/// The fingerprints that the first `n` reads put back.
pub open spec fn writes_in(
    gamma: int,
    tau: int,
    values: Seq<int>,
    addresses: Seq<int>,
    n: nat,
) -> Seq<int> {
    let r = reads_out(gamma, tau, values, addresses, n);
    Seq::new(n, |j: int| r[j] + gamma * gamma)
}

/// What is in a memory at first and what its reads put back is what they take out and what is in
/// the memory at last.
pub proof fn law_memory_balance(
    gamma: int,
    tau: int,
    values: Seq<int>,
    addresses: Seq<int>,
    n: nat,
)
    requires
        n <= addresses.len(),
        forall|j: int| 0 <= j < n ==> 0 <= #[trigger] addresses[j] < values.len(),
    ensures
        product(memory_state(gamma, tau, values, addresses, 0)) * product(
            writes_in(gamma, tau, values, addresses, n),
        ) == product(memory_state(gamma, tau, values, addresses, n)) * product(
            reads_out(gamma, tau, values, addresses, n),
        ),
    decreases n,
{
    if n > 0 {
        let m = (n - 1) as nat;
        law_memory_balance(gamma, tau, values, addresses, m);
        let s0 = memory_state(gamma, tau, values, addresses, 0);
        let sm = memory_state(gamma, tau, values, addresses, m);
        let sn = memory_state(gamma, tau, values, addresses, n);
        let wn = writes_in(gamma, tau, values, addresses, n);
        let wm = writes_in(gamma, tau, values, addresses, m);
        let rn = reads_out(gamma, tau, values, addresses, n);
        let rm = reads_out(gamma, tau, values, addresses, m);
        assert(wn.drop_last() =~= wm);
        assert(rn.drop_last() =~= rm);
        let a = addresses[n - 1];
        let w = wn.last();
        let r = rn.last();
        assert(r == sm[a]);
        let g = gamma * gamma;
        let c = reads_of(addresses, a, m) as int;
        assert(g * (c + 1) == g * c + g) by (nonlinear_arith);
        assert(sn =~= sm.update(a, w)) by {
            assert forall|i: int| 0 <= i < sn.len() implies sn[i] == sm.update(a, w)[i] by {}
        }
        lemma_product_update(sm, a, w);
        let (p0, pwm, pm, prm, pn) = (product(s0), product(wm), product(sm), product(rm), product(sn));
        assert(pn * r == pm * w);
        assert(p0 * (pwm * w) == pn * (prm * r)) by (nonlinear_arith)
            requires
                pn * r == pm * w,
                p0 * pwm == pm * prm,
        ;
    } else {
        assert(writes_in(gamma, tau, values, addresses, 0) =~= Seq::empty());
        assert(reads_out(gamma, tau, values, addresses, 0) =~= Seq::empty());
    }
}

} // verus!
