//! The product circuits of a memory check.
use vstd::prelude::*;
use crate::algebra::{
    canonical, cong, cong_seq, lemma_cong_add, lemma_cong_mod, lemma_cong_mul, lemma_mod_canonical,
    two_to,
};
use crate::bits::{is_power_of_two, log2, log2_of};
use crate::field::{PrimeField, vals, vals2};
use crate::gkr::helper::{fingerprint_base, fingerprint_time};
use crate::memory::{
    fingerprint, law_memory_balance, lemma_product_cong, lemma_product_pairs, memory_state,
    product, reads_of, reads_out, writes_in,
};
use crate::timestamps::{final_times, read_times};
use crate::gkr::gkr::{circuits_fit, circuits_multiply};

verus! {

/// The products of neighbouring entries.
pub open spec fn product_layer(p: int, t: Seq<int>) -> Seq<int> {
    Seq::new(t.len() / 2, |i: int| (t[2 * i] * t[2 * i + 1]) % p)
}

/// The layer `k` above the inputs `t`.
pub open spec fn layer_of(p: int, t: Seq<int>, k: nat) -> Seq<int>
    decreases k,
{
    if k == 0 {
        t
    } else {
        product_layer(p, layer_of(p, t, (k - 1) as nat))
    }
}

/// The circuit that multiplies the inputs `t`, layer by layer.
pub open spec fn circuit_of(p: int, t: Seq<int>, depth: nat) -> Seq<Seq<int>> {
    Seq::new(depth + 1, |k: int| layer_of(p, t, k as nat))
}

/// The fingerprints of a table of indices and values before the first read.
pub open spec fn init_leaves(p: int, gamma: int, tau: int, eq: Seq<int>, n: nat) -> Seq<int> {
    Seq::new(n, |i: int| (i + gamma * eq[i] - tau) % p)
}

/// The fingerprints of a table of indices and values after the last read.
pub open spec fn final_leaves(
    p: int,
    gamma: int,
    tau: int,
    eq: Seq<int>,
    times: Seq<int>,
    n: nat,
) -> Seq<int> {
    Seq::new(n, |i: int| fingerprint(gamma, tau, i, eq[i], times[i]) % p)
}

/// The fingerprints that reads take out.
pub open spec fn read_leaves(
    p: int,
    gamma: int,
    tau: int,
    addresses: Seq<int>,
    values: Seq<int>,
    times: Seq<int>,
    n: nat,
) -> Seq<int> {
    Seq::new(n, |i: int| fingerprint(gamma, tau, addresses[i], values[i], times[i]) % p)
}

/// The fingerprints that reads put back.
pub open spec fn write_leaves(
    p: int,
    gamma: int,
    tau: int,
    addresses: Seq<int>,
    values: Seq<int>,
    times: Seq<int>,
    n: nat,
) -> Seq<int> {
    Seq::new(
        n,
        |i: int| (fingerprint(gamma, tau, addresses[i], values[i], times[i]) + gamma * gamma) % p,
    )
}

/// What is in the memory at first and what reads put back is what they take out and what is in
/// the memory at last.
pub open spec fn balanced(p: int, init: Seq<int>, writes: Seq<int>, finals: Seq<int>, reads: Seq<int>) -> bool {
    cong(p, product(init) * product(writes), product(finals) * product(reads))
}

pub proof fn lemma_layer_of(p: int, t: Seq<int>, depth: nat, k: nat)
    requires
        p > 0,
        t.len() == two_to(depth),
        canonical(p, t),
        k <= depth,
    ensures
        layer_of(p, t, k).len() == two_to((depth - k) as nat),
        canonical(p, layer_of(p, t, k)),
        cong(p, product(layer_of(p, t, k)), product(t)),
    decreases k,
{
    if k > 0 {
        lemma_layer_of(p, t, depth, (k - 1) as nat);
        let s = layer_of(p, t, (k - 1) as nat);
        let n = two_to((depth - k) as nat);
        assert(s.len() == 2 * n);
        let l = layer_of(p, t, k);
        let q = Seq::new(n, |i: int| s[2 * i] * s[2 * i + 1]);
        assert forall|i: int| 0 <= i < l.len() implies 0 <= #[trigger] l[i] < p by {
            lemma_mod_canonical(p, q[i]);
        }
        assert forall|i: int| 0 <= i < l.len() implies cong(p, #[trigger] l[i], q[i]) by {
            lemma_cong_mod(p, q[i]);
        }
        assert(cong_seq(p, l, q));
        lemma_product_cong(p, l, q);
        lemma_product_pairs(s, n);
    }
}

/// The two values below the output of a circuit have the product of all its inputs.
pub proof fn law_circuit_product(p: int, t: Seq<int>, depth: nat)
    requires
        p > 0,
        depth >= 1,
        t.len() == two_to(depth),
        canonical(p, t),
    ensures
        ({
            let l = circuit_of(p, t, depth)[depth - 1];
            &&& l.len() == 2
            &&& cong(p, l[0] * l[1], product(t))
        }),
{
    lemma_layer_of(p, t, depth, (depth - 1) as nat);
    let l = layer_of(p, t, (depth - 1) as nat);
    assert(two_to(1) == 2 * two_to(0));
    assert(l.drop_last().drop_last() =~= Seq::empty());
    assert(product(l.drop_last()) == product(l.drop_last().drop_last()) * l[0]);
    assert(1 * l[0] == l[0]);
}

/// The products of neighbouring entries.
fn multiply_pairs<F: PrimeField>(t: &Vec<F>) -> (r: Vec<F>)
    ensures
        vals(r@) == product_layer(F::modulus(), vals(t@)),
{
    let n = t.len();
    let half: usize = n / 2;
    let mut r: Vec<F> = Vec::new();
    let mut i: usize = 0;
    while i < half
        invariant
            i <= half,
            n == t@.len(),
            half == n / 2,
            r@.len() == i,
            forall|j: int|
                0 <= j < i ==> #[trigger] r@[j].value() == (vals(t@)[2 * j] * vals(t@)[2 * j + 1])
                    % F::modulus(),
        decreases half - i,
    {
        r.push(t[2 * i].mul(t[2 * i + 1]));
        i += 1;
    }
    assert(vals(r@) =~= product_layer(F::modulus(), vals(t@)));
    r
}

/// All layers of the circuit over the inputs `t`.
fn build_circuit<F: PrimeField>(t: Vec<F>, depth: usize) -> (r: Vec<Vec<F>>)
    requires
        depth < usize::MAX,
    ensures
        vals2(r@) == circuit_of(F::modulus(), vals(t@), depth as nat),
{
    let ghost leaves = vals(t@);
    let ghost p = F::modulus();
    let mut r: Vec<Vec<F>> = Vec::new();
    r.push(t);
    let mut k: usize = 0;
    while k < depth
        invariant
            k <= depth,
            p == F::modulus(),
            r@.len() == k + 1,
            forall|j: int| 0 <= j <= k ==> vals(#[trigger] r@[j]@) == layer_of(p, leaves, j as nat),
        decreases depth - k,
    {
        let next = multiply_pairs(&r[k]);
        assert(vals(r@[k as int]@) == layer_of(p, leaves, k as nat));
        r.push(next);
        k += 1;
    }
    assert(vals2(r@) =~= circuit_of(p, leaves, depth as nat));
    r
}

/// The fingerprints of a table before the first and after the last read.
fn table_leaves<F: PrimeField>(
    eq_data: &Vec<F>,
    times: &Vec<F>,
    gamma_tau: &Vec<F>,
    n: usize,
) -> (r: (Vec<F>, Vec<F>))
    requires
        gamma_tau@.len() >= 2,
        eq_data@.len() >= n,
        times@.len() >= n,
    ensures
        vals(r.0@) == init_leaves(
            F::modulus(),
            gamma_tau@[0].value(),
            gamma_tau@[1].value(),
            vals(eq_data@),
            n as nat,
        ),
        vals(r.1@) == final_leaves(
            F::modulus(),
            gamma_tau@[0].value(),
            gamma_tau@[1].value(),
            vals(eq_data@),
            vals(times@),
            n as nat,
        ),
{
    let ghost p = F::modulus();
    let ghost (g, t) = (gamma_tau@[0].value(), gamma_tau@[1].value());
    let mut init: Vec<F> = Vec::new();
    let mut fin: Vec<F> = Vec::new();
    let mut i: usize = 0;
    while i < n
        invariant
            i <= n,
            p == F::modulus(),
            gamma_tau@.len() >= 2,
            g == gamma_tau@[0].value(),
            t == gamma_tau@[1].value(),
            eq_data@.len() >= n,
            times@.len() >= n,
            init@.len() == i,
            fin@.len() == i,
            forall|j: int|
                0 <= j < i ==> #[trigger] init@[j].value() == (j + g * vals(eq_data@)[j] - t) % p,
            forall|j: int|
                0 <= j < i ==> #[trigger] fin@[j].value() == fingerprint(
                    g,
                    t,
                    j,
                    vals(eq_data@)[j],
                    vals(times@)[j],
                ) % p,
        decreases n - i,
    {
        let index = F::from_u64(i as u64);
        let a = fingerprint_base(gamma_tau, index, eq_data[i]);
        let b = fingerprint_time(gamma_tau, a, times[i]);
        proof {
            F::lemma_modulus();
            let x = eq_data@[i as int].value();
            let y = times@[i as int].value();
            let base = i as int + g * x - t;
            lemma_cong_mod(p, i as int);
            lemma_cong_add(p, index.value(), i as int, g * x - t, g * x - t);
            assert(a.value() == base % p);
            lemma_cong_mod(p, base);
            lemma_cong_add(p, a.value(), base, (g * g) * y, (g * g) * y);
        }
        init.push(a);
        fin.push(b);
        i += 1;
    }
    assert(vals(init@) =~= init_leaves(p, g, t, vals(eq_data@), n as nat));
    assert(vals(fin@) =~= final_leaves(p, g, t, vals(eq_data@), vals(times@), n as nat));
    (init, fin)
}

/// The fingerprints that reads put back and take out.
fn access_leaves<F: PrimeField>(
    addresses: &Vec<F>,
    values: &Vec<F>,
    times: &Vec<F>,
    gamma_tau: &Vec<F>,
    n: usize,
) -> (r: (Vec<F>, Vec<F>))
    requires
        gamma_tau@.len() >= 2,
        addresses@.len() >= n,
        values@.len() >= n,
        times@.len() >= n,
    ensures
        vals(r.0@) == write_leaves(
            F::modulus(),
            gamma_tau@[0].value(),
            gamma_tau@[1].value(),
            vals(addresses@),
            vals(values@),
            vals(times@),
            n as nat,
        ),
        vals(r.1@) == read_leaves(
            F::modulus(),
            gamma_tau@[0].value(),
            gamma_tau@[1].value(),
            vals(addresses@),
            vals(values@),
            vals(times@),
            n as nat,
        ),
{
    let ghost p = F::modulus();
    let ghost (g, t) = (gamma_tau@[0].value(), gamma_tau@[1].value());
    let mut writes: Vec<F> = Vec::new();
    let mut reads: Vec<F> = Vec::new();
    let mut i: usize = 0;
    while i < n
        invariant
            i <= n,
            p == F::modulus(),
            gamma_tau@.len() >= 2,
            g == gamma_tau@[0].value(),
            t == gamma_tau@[1].value(),
            addresses@.len() >= n,
            values@.len() >= n,
            times@.len() >= n,
            writes@.len() == i,
            reads@.len() == i,
            forall|j: int|
                0 <= j < i ==> #[trigger] writes@[j].value() == (fingerprint(
                    g,
                    t,
                    vals(addresses@)[j],
                    vals(values@)[j],
                    vals(times@)[j],
                ) + g * g) % p,
            forall|j: int|
                0 <= j < i ==> #[trigger] reads@[j].value() == fingerprint(
                    g,
                    t,
                    vals(addresses@)[j],
                    vals(values@)[j],
                    vals(times@)[j],
                ) % p,
        decreases n - i,
    {
        let a = fingerprint_base(gamma_tau, addresses[i], values[i]);
        let b = fingerprint_time(gamma_tau, a, times[i]);
        let w = fingerprint_time(gamma_tau, b, F::one());
        proof {
            F::lemma_modulus();
            let x = values@[i as int].value();
            let y = times@[i as int].value();
            let base = addresses@[i as int].value() + g * x - t;
            let f = base + (g * g) * y;
            lemma_cong_mod(p, base);
            lemma_cong_add(p, a.value(), base, (g * g) * y, (g * g) * y);
            assert(b.value() == f % p);
            lemma_cong_mod(p, f);
            assert((g * g) * 1 == g * g);
            lemma_cong_add(p, b.value(), f, g * g, g * g);
        }
        writes.push(w);
        reads.push(b);
        i += 1;
    }
    assert(vals(writes@) =~= write_leaves(
        p,
        g,
        t,
        vals(addresses@),
        vals(values@),
        vals(times@),
        n as nat,
    ));
    assert(vals(reads@) =~= read_leaves(
        p,
        g,
        t,
        vals(addresses@),
        vals(values@),
        vals(times@),
        n as nat,
    ));
    (writes, reads)
}

/// The data of one memory check: the addresses, values and times of the reads, and the times
/// that they leave.
pub open spec fn access_fits<F: PrimeField>(
    h: Seq<Vec<F>>,
    values: Seq<Vec<F>>,
    read_ts: Seq<Vec<F>>,
    final_ts: Seq<Vec<F>>,
    len1: nat,
    len2: nat,
    c: int,
) -> bool {
    &&& h[c]@.len() >= len2
    &&& values[c]@.len() >= len2
    &&& read_ts[c]@.len() >= len2
    &&& final_ts[c]@.len() >= len1
}

/// The four products of one memory check are balanced.
pub open spec fn access_balanced(
    p: int,
    gamma: int,
    tau: int,
    eq: Seq<int>,
    addresses: Seq<int>,
    values: Seq<int>,
    read_ts: Seq<int>,
    final_ts: Seq<int>,
    len1: nat,
    len2: nat,
) -> bool {
    balanced(
        p,
        init_leaves(p, gamma, tau, eq, len1),
        write_leaves(p, gamma, tau, addresses, values, read_ts, len2),
        final_leaves(p, gamma, tau, eq, final_ts, len1),
        read_leaves(p, gamma, tau, addresses, values, read_ts, len2),
    )
}

/// The four circuits of one memory check.
pub open spec fn is_circuits_of(
    p: int,
    gamma: int,
    tau: int,
    eq: Seq<int>,
    addresses: Seq<int>,
    values: Seq<int>,
    read_ts: Seq<int>,
    final_ts: Seq<int>,
    len1: nat,
    len2: nat,
    init: Seq<Seq<int>>,
    writes: Seq<Seq<int>>,
    finals: Seq<Seq<int>>,
    reads: Seq<Seq<int>>,
) -> bool {
    let (d1, d2) = (log2_of(len1), log2_of(len2));
    &&& init == circuit_of(p, init_leaves(p, gamma, tau, eq, len1), d1)
    &&& writes == circuit_of(p, write_leaves(p, gamma, tau, addresses, values, read_ts, len2), d2)
    &&& finals == circuit_of(p, final_leaves(p, gamma, tau, eq, final_ts, len1), d1)
    &&& reads == circuit_of(p, read_leaves(p, gamma, tau, addresses, values, read_ts, len2), d2)
}

/// Builds the four product circuits of every memory: that of the table before the first read,
/// that of what the reads put back, that of the table after the last read, and that of what the
/// reads take out. The table of a memory holds `eq_data`; its reads go to the addresses `h[c]`,
/// find the values `h_erow_ecol[c]` and the times `read_ts[c]`, and leave the times
/// `final_ts[c]`.
pub fn grand_product_circuits<F: PrimeField>(
    len1: usize,
    len2: usize,
    h: &Vec<Vec<F>>,
    h_erow_ecol: &Vec<Vec<F>>,
    read_ts: &Vec<Vec<F>>,
    final_ts: &Vec<Vec<F>>,
    eq_data: &Vec<F>,
    gamma_tau: &Vec<F>,
) -> (r: (Vec<Vec<Vec<F>>>, Vec<Vec<Vec<F>>>, Vec<Vec<Vec<F>>>, Vec<Vec<Vec<F>>>))
    requires
        len1 >= 1,
        len2 >= 1,
        is_power_of_two(len1 as nat),
        is_power_of_two(len2 as nat),
        gamma_tau@.len() >= 2,
        eq_data@.len() >= len1,
        h_erow_ecol@.len() >= h@.len(),
        read_ts@.len() >= h@.len(),
        final_ts@.len() >= h@.len(),
        forall|c: int|
            0 <= c < h@.len() ==> #[trigger] access_fits(
                h@,
                h_erow_ecol@,
                read_ts@,
                final_ts@,
                len1 as nat,
                len2 as nat,
                c,
            ),
        forall|c: int|
            0 <= c < h@.len() ==> access_balanced(
                F::modulus(),
                gamma_tau@[0].value(),
                gamma_tau@[1].value(),
                vals(eq_data@),
                vals((#[trigger] h@[c])@),
                vals(h_erow_ecol@[c]@),
                vals(read_ts@[c]@),
                vals(final_ts@[c]@),
                len1 as nat,
                len2 as nat,
            ),
    ensures
        r.0@.len() == h@.len(),
        r.1@.len() == h@.len(),
        r.2@.len() == h@.len(),
        r.3@.len() == h@.len(),
        forall|c: int|
            0 <= c < h@.len() ==> is_circuits_of(
                F::modulus(),
                gamma_tau@[0].value(),
                gamma_tau@[1].value(),
                vals(eq_data@),
                vals((#[trigger] h@[c])@),
                vals(h_erow_ecol@[c]@),
                vals(read_ts@[c]@),
                vals(final_ts@[c]@),
                len1 as nat,
                len2 as nat,
                vals2(r.0@[c]@),
                vals2(r.1@[c]@),
                vals2(r.2@[c]@),
                vals2(r.3@[c]@),
            ),
{
    let depth1 = log2(len1);
    let depth2 = log2(len2);
    let mut w_init: Vec<Vec<Vec<F>>> = Vec::new();
    let mut w_update: Vec<Vec<Vec<F>>> = Vec::new();
    let mut s_circuits: Vec<Vec<Vec<F>>> = Vec::new();
    let mut r_circuits: Vec<Vec<Vec<F>>> = Vec::new();
    let mut c: usize = 0;
    while c < h.len()
        invariant
            c <= h@.len(),
            depth1 == log2_of(len1 as nat),
            depth2 == log2_of(len2 as nat),
            depth1 < usize::BITS,
            depth2 < usize::BITS,
            gamma_tau@.len() >= 2,
            eq_data@.len() >= len1,
            h_erow_ecol@.len() >= h@.len(),
            read_ts@.len() >= h@.len(),
            final_ts@.len() >= h@.len(),
            forall|i: int|
                0 <= i < h@.len() ==> #[trigger] access_fits(
                    h@,
                    h_erow_ecol@,
                    read_ts@,
                    final_ts@,
                    len1 as nat,
                    len2 as nat,
                    i,
                ),
            w_init@.len() == c,
            w_update@.len() == c,
            s_circuits@.len() == c,
            r_circuits@.len() == c,
            forall|i: int|
                0 <= i < c ==> is_circuits_of(
                    F::modulus(),
                    gamma_tau@[0].value(),
                    gamma_tau@[1].value(),
                    vals(eq_data@),
                    vals((#[trigger] h@[i])@),
                    vals(h_erow_ecol@[i]@),
                    vals(read_ts@[i]@),
                    vals(final_ts@[i]@),
                    len1 as nat,
                    len2 as nat,
                    vals2(w_init@[i]@),
                    vals2(w_update@[i]@),
                    vals2(s_circuits@[i]@),
                    vals2(r_circuits@[i]@),
                ),
        decreases h@.len() - c,
    {
        assert(access_fits(
            h@,
            h_erow_ecol@,
            read_ts@,
            final_ts@,
            len1 as nat,
            len2 as nat,
            c as int,
        ));
        let (init, fin) = table_leaves(eq_data, &final_ts[c], gamma_tau, len1);
        let (writes, reads) = access_leaves(&h[c], &h_erow_ecol[c], &read_ts[c], gamma_tau, len2);
        w_init.push(build_circuit(init, depth1));
        w_update.push(build_circuit(writes, depth2));
        s_circuits.push(build_circuit(fin, depth1));
        r_circuits.push(build_circuit(reads, depth2));
        c += 1;
    }
    (w_init, w_update, s_circuits, r_circuits)
}

/// The circuits over some tables of leaves.
pub open spec fn circuits_over(p: int, leaves: Seq<Seq<int>>, depth: nat) -> Seq<Seq<Seq<int>>> {
    Seq::new(leaves.len(), |c: int| circuit_of(p, leaves[c], depth))
}

/// In circuits over reduced leaves every layer holds the products of the one below.
pub proof fn lemma_circuits_multiply(p: int, leaves: Seq<Seq<int>>, depth: nat)
    requires
        p > 0,
        depth >= 1,
        leaves.len() >= 1,
        forall|c: int|
            0 <= c < leaves.len() ==> (#[trigger] leaves[c]).len() == two_to(depth) && canonical(
                p,
                leaves[c],
            ),
    ensures
        circuits_multiply(p, circuits_over(p, leaves, depth), depth),
{
    let cs = circuits_over(p, leaves, depth);
    assert forall|c: int, k: int|
        #![trigger cs[c][k]]
        0 <= c < cs.len() && 0 <= k < depth implies cs[c][k].len() == two_to((depth - k) as nat)
        && canonical(p, cs[c][k]) by {
        lemma_layer_of(p, leaves[c], depth, k as nat);
    }
    assert forall|c: int, k: int, i: int|
        #![trigger cs[c][k][i]]
        0 <= c < cs.len() && 1 <= k < depth && 0 <= i < two_to((depth - k) as nat) implies cs[c][k][i]
        == (cs[c][k - 1][2 * i] * cs[c][k - 1][2 * i + 1]) % p by {
        lemma_layer_of(p, leaves[c], depth, (k - 1) as nat);
        assert(two_to((depth - k + 1) as nat) == 2 * two_to((depth - k) as nat));
    }
    assert(circuits_fit(cs, depth)) by {
        assert forall|c: int| 0 <= c < cs.len() implies (#[trigger] cs[c]).len() == depth + 1 by {}
    }
}

/// Reads of a table balance: what was there at first and what was written make up what is left
/// and what was read, when every value that was read is that of its address.
pub proof fn law_accesses_balance(
    p: int,
    gamma: int,
    tau: int,
    table: Seq<int>,
    addresses: Seq<int>,
    values: Seq<int>,
    n: nat,
)
    requires
        p > 0,
        table.len() >= n,
        values.len() == addresses.len(),
        forall|i: int|
            0 <= i < addresses.len() ==> 0 <= #[trigger] addresses[i] < n && values[i]
                == table[addresses[i]],
    ensures
        access_balanced(
            p,
            gamma,
            tau,
            table,
            addresses,
            values,
            read_times(p, addresses),
            final_times(p, addresses, n),
            n,
            addresses.len(),
        ),
{
    let m = addresses.len();
    let memory = table.take(n as int);
    let reads = read_times(p, addresses);
    let finals = final_times(p, addresses, n);
    law_memory_balance(gamma, tau, memory, addresses, m);
    let a = init_leaves(p, gamma, tau, table, n);
    let b = write_leaves(p, gamma, tau, addresses, values, reads, m);
    let c = final_leaves(p, gamma, tau, table, finals, n);
    let d = read_leaves(p, gamma, tau, addresses, values, reads, m);
    let a2 = memory_state(gamma, tau, memory, addresses, 0);
    let b2 = writes_in(gamma, tau, memory, addresses, m);
    let c2 = memory_state(gamma, tau, memory, addresses, m);
    let d2 = reads_out(gamma, tau, memory, addresses, m);
    assert forall|i: int| 0 <= i < n implies cong(p, #[trigger] a[i], a2[i]) by {
        assert((gamma * gamma) * 0 == 0) by (nonlinear_arith);
        assert(a2[i] == i + gamma * table[i] - tau);
        lemma_cong_mod(p, i + gamma * table[i] - tau);
    }
    assert forall|i: int| 0 <= i < n implies cong(p, #[trigger] c[i], c2[i]) by {
        let t = reads_of(addresses, i, m) as int;
        lemma_fingerprint_time(p, gamma, tau, i, table[i], t);
    }
    assert forall|i: int| 0 <= i < m implies cong(p, #[trigger] d[i], d2[i]) by {
        let t = reads_of(addresses, addresses[i], i as nat) as int;
        lemma_fingerprint_time(p, gamma, tau, addresses[i], values[i], t);
    }
    assert forall|i: int| 0 <= i < m implies cong(p, #[trigger] b[i], b2[i]) by {
        let t = reads_of(addresses, addresses[i], i as nat) as int;
        lemma_fingerprint_time(p, gamma, tau, addresses[i], values[i], t);
        let x = fingerprint(gamma, tau, addresses[i], values[i], t % p);
        let y = fingerprint(gamma, tau, addresses[i], values[i], t);
        lemma_cong_mod(p, x);
        lemma_cong_mod(p, x + gamma * gamma);
        lemma_cong_add(p, x, y, gamma * gamma, gamma * gamma);
    }
    lemma_product_cong(p, a, a2);
    lemma_product_cong(p, b, b2);
    lemma_product_cong(p, c, c2);
    lemma_product_cong(p, d, d2);
    lemma_cong_mul(p, product(a), product(a2), product(b), product(b2));
    lemma_cong_mul(p, product(c), product(c2), product(d), product(d2));
}

/// A reduced time gives the same fingerprint.
proof fn lemma_fingerprint_time(p: int, gamma: int, tau: int, a: int, v: int, t: int)
    requires
        p > 0,
    ensures
        cong(p, fingerprint(gamma, tau, a, v, t % p), fingerprint(gamma, tau, a, v, t)),
        cong(p, fingerprint(gamma, tau, a, v, t % p) % p, fingerprint(gamma, tau, a, v, t)),
{
    lemma_cong_mod(p, t);
    lemma_cong_mul(p, gamma * gamma, gamma * gamma, t % p, t);
    lemma_cong_add(
        p,
        a + gamma * v - tau,
        a + gamma * v - tau,
        (gamma * gamma) * (t % p),
        (gamma * gamma) * t,
    );
    lemma_cong_mod(p, fingerprint(gamma, tau, a, v, t % p));
}

} // verus!
