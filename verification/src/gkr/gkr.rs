//! The protocol for a batch of layered product circuits of equal depth.
use vstd::prelude::*;
use vstd::arithmetic::div_mod::lemma_add_mod_noop;
use crate::algebra::{
    canonical, cong, lemma_cong_mod, lemma_cong_mul, lemma_mod_canonical, lemma_mod_small,
    lemma_two_to_positive, two_to,
};
use crate::bits::pow_two;
use crate::brakingbase_helper::{evaluate_eq, line_at};
use crate::combiners::{lemma_comb_sum, lemma_comb_zero, lemma_prod3, prod3, term2, term3};
use crate::error::{Error, outcome};
use crate::field::{PrimeField, vals, vals2};
use crate::gkr::helper::{compute_fourier_bases, lemma_vals_reverse, reverse_elements};
use crate::multilinear::{
    basis, bind_all, eq_points, eq_prod, law_bind_evaluates, lemma_bind_basis, lemma_mle_last, mle,
};
use crate::rounds::{
    Comb, Combiner, Shape, all_canonical, check_rounds, has_degree, law_sum_check_complete,
    lemma_check_rounds_failed, lemma_prove_rounds_shape, prove_rounds, respects, row,
    sum_check_prove, sum_check_verify, total, uniform,
};
use crate::sums::{
    dot, lemma_sum_exchange, lemma_sum_ext, lemma_sum_factor, lemma_sum_of_cong, lemma_sum_step,
    sum_of,
};
use crate::transcript::{
    Check, Event, Oracle, TranscriptRead, TranscriptWrite, Tx, challenges, checking,
    oracle_reduced, read_challenges, read_field_elements, squeeze_challenges, synced,
    write_field_elements,
};

verus! {

/// The messages of one run of the protocol, ordered by what they are.
#[derive(Clone)]
pub struct GkrTranscript<F: PrimeField> {
    pub final_evaluations: Vec<Vec<F>>,
    pub claimed_values: Vec<Vec<Vec<F>>>,
    pub polynomials: Vec<Vec<Vec<F>>>,
}

impl<F: PrimeField> GkrTranscript<F> {
    /// A record of the given values.
    pub fn new(
        final_evaluations: Vec<Vec<F>>,
        claimed_values: Vec<Vec<Vec<F>>>,
        polynomials: Vec<Vec<Vec<F>>>,
    ) -> (r: GkrTranscript<F>)
        ensures
            r == (GkrTranscript { final_evaluations, claimed_values, polynomials }),
    {
        GkrTranscript { final_evaluations, claimed_values, polynomials }
    }
}

/// The sum over the first `n` circuits of weight, basis value and both children.
pub open spec fn gate_sum(coeff: Seq<int>, v: Seq<int>, n: nat) -> int {
    sum_of(n, |c: int| coeff[c] * (v[0] * v[1 + c] * v[1 + coeff.len() + c]))
}

/// The polynomial of a layer: a basis value, then all left children, then all right children.
pub open spec fn gate_comb(coeff: Seq<int>) -> Comb {
    |v: Seq<int>| gate_sum(coeff, v, coeff.len())
}

/// The shape of the sum-checks of the protocol.
pub open spec fn gkr_shape(p: int, ch: Oracle) -> Shape {
    Shape { p, ch, degree: 3, descending: false }
}

/// The entries of `t` at the first `n` even indices, or at the odd indices next to these.
pub open spec fn children(t: Seq<int>, n: nat, odd: int) -> Seq<int> {
    Seq::new(n, |i: int| t[2 * i + odd])
}

/// The tables of the sum-check that leads from a point of one layer to the layer `k` below.
pub open spec fn layer_tables(p: int, circuits: Seq<Seq<Seq<int>>>, point: Seq<int>, k: int) -> Seq<
    Seq<int>,
> {
    let n = circuits.len();
    let size = two_to(point.len());
    Seq::new(
        2 * n + 1,
        |i: int|
            if i == 0 {
                basis(p, point)
            } else if i <= n {
                children(circuits[i - 1][k], size, 0)
            } else {
                children(circuits[i - 1 - n][k], size, 1)
            },
    )
}

/// The two values of every circuit that a row of a finished sum-check holds, circuit by circuit.
pub open spec fn child_values(tables: Seq<Seq<int>>, n: nat) -> Seq<int> {
    Seq::new(2 * n, |i: int| tables[1 + i / 2 + (i % 2) * n][0])
}

/// Where the prover stands between two layers.
pub struct GkrProving {
    pub tx: Tx,
    pub point: Seq<int>,
}

/// The two values of every circuit in the layer below the output.
pub open spec fn final_values(circuits: Seq<Seq<Seq<int>>>, depth: nat) -> Seq<int> {
    Seq::new(2 * circuits.len(), |i: int| circuits[i / 2][depth - 1][i % 2])
}

/// The weights of the circuits.
pub open spec fn gkr_coefficients(ch: Oracle, tx: Tx, circuits: Seq<Seq<Seq<int>>>, depth: nat) -> Seq<
    int,
> {
    let t = tx.write_all(final_values(circuits, depth)).squeeze();
    challenges(ch, t.hist, circuits.len())
}

/// The prover after `k` layers.
pub open spec fn gkr_layers(
    p: int,
    ch: Oracle,
    tx: Tx,
    circuits: Seq<Seq<Seq<int>>>,
    depth: nat,
    k: nat,
) -> GkrProving
    decreases k,
{
    if k == 0 {
        let t = tx.write_all(final_values(circuits, depth));
        GkrProving {
            tx: t.squeeze().squeeze_many(circuits.len()),
            point: seq![ch(t.hist)],
        }
    } else {
        let s = gkr_layers(p, ch, tx, circuits, depth, (k - 1) as nat);
        let coeff = gkr_coefficients(ch, tx, circuits, depth);
        let r = prove_rounds(
            gkr_shape(p, ch),
            gate_comb(coeff),
            s.tx,
            layer_tables(p, circuits, s.point, depth - k - 1),
            k,
        );
        let t = r.tx.write_all(child_values(r.tables, circuits.len()));
        GkrProving { tx: t.squeeze(), point: r.point.push(ch(t.hist)) }
    }
}

/// The whole run of the prover.
pub open spec fn gkr_prove(p: int, ch: Oracle, tx: Tx, circuits: Seq<Seq<Seq<int>>>) -> GkrProving {
    let depth = (circuits[0].len() - 1) as nat;
    gkr_layers(p, ch, tx, circuits, depth, (depth - 1) as nat)
}

/// All circuits have one depth, and layers that are long enough.
pub open spec fn circuits_fit(circuits: Seq<Seq<Seq<int>>>, depth: nat) -> bool {
    &&& circuits.len() >= 1
    &&& depth >= 1
    &&& forall|c: int| 0 <= c < circuits.len() ==> (#[trigger] circuits[c]).len() == depth + 1
    &&& forall|c: int, k: int|
        #![trigger circuits[c][k]]
        0 <= c < circuits.len() && 0 <= k < depth ==> circuits[c][k].len() >= two_to((depth - k) as nat)
}

/// The weighted sum, over the circuits, of the products of basis value and both children.
pub struct GateCombiner<F: PrimeField> {
    pub coeff: Vec<F>,
}

proof fn lemma_gate_partial(p: int, coeff: Seq<int>, n: nat)
    requires
        p > 0,
        n <= coeff.len(),
    ensures
        ({
            let f = |v: Seq<int>| gate_sum(coeff, v, n);
            &&& has_degree(f, 2 * coeff.len() + 1, 3)
            &&& respects(p, f, 2 * coeff.len() + 1)
        }),
    decreases n,
{
    let m = 2 * coeff.len() + 1;
    let f = |v: Seq<int>| gate_sum(coeff, v, n);
    if n == 0 {
        assert forall|v: Seq<int>| #[trigger] f(v) == 0 by {
            lemma_sum_step(0, |c: int| coeff[c] * (v[0] * v[1 + c] * v[1 + coeff.len() + c]));
        }
        lemma_comb_zero(p, f, m, 3);
    } else {
        let c = n - 1;
        lemma_gate_partial(p, coeff, c as nat);
        let g = |v: Seq<int>| gate_sum(coeff, v, c as nat);
        let h = prod3(coeff[c], 0, 1 + c, 1 + coeff.len() + c);
        lemma_prod3(p, coeff[c], 0, 1 + c, 1 + coeff.len() + c, m);
        assert forall|v: Seq<int>| #[trigger] f(v) == g(v) + h(v) by {
            lemma_sum_step(
                c as nat,
                |c: int| coeff[c] * (v[0] * v[1 + c] * v[1 + coeff.len() + c]),
            );
        }
        lemma_comb_sum(p, g, h, f, m, 3);
    }
}

impl<F: PrimeField> Combiner<F> for GateCombiner<F> {
    open spec fn comb(&self) -> Comb {
        gate_comb(vals(self.coeff@))
    }

    open spec fn arity(&self) -> nat {
        2 * self.coeff@.len() + 1
    }

    open spec fn degree(&self) -> nat {
        3
    }

    proof fn lemma_combiner(&self) {
        F::lemma_modulus();
        lemma_gate_comb(F::modulus(), vals(self.coeff@));
    }

    fn combine(&self, values: &Vec<F>) -> (r: F) {
        let n = self.coeff.len();
        let len = values.len();
        let ghost p = F::modulus();
        let ghost coeff = vals(self.coeff@);
        let ghost v = vals(values@);
        let ghost f = |c: int| coeff[c] * (v[0] * v[1 + c] * v[1 + coeff.len() + c]);
        let mut acc = F::zero();
        let mut c: usize = 0;
        proof {
            F::lemma_modulus();
            lemma_mod_small(p, 0);
            lemma_sum_step(0, f);
        }
        while c < n
            invariant
                c <= n,
                n == self.coeff@.len(),
                len == values@.len(),
                len == 2 * n + 1,
                p == F::modulus(),
                p > 6,
                coeff == vals(self.coeff@),
                v == vals(values@),
                f == (|c: int| coeff[c] * (v[0] * v[1 + c] * v[1 + coeff.len() + c])),
                acc.value() == sum_of(c as nat, f) % p,
            decreases n - c,
        {
            let t = term3(self.coeff[c], values[0], values[1 + c], values[1 + n + c]);
            let next = acc.add(t);
            proof {
                lemma_sum_step(c as nat, f);
                lemma_add_mod_noop(sum_of(c as nat, f), f(c as int), p);
            }
            acc = next;
            c += 1;
        }
        acc
    }

    fn is_cubic(&self) -> (r: bool) {
        true
    }
}

/// The tables of one layer.
fn build_layer_tables<F: PrimeField>(
    circuits: &Vec<&Vec<Vec<F>>>,
    point: &Vec<F>,
    k: usize,
    Ghost(cs): Ghost<Seq<Seq<Seq<int>>>>,
) -> (r: Vec<Vec<F>>)
    requires
        cs == Seq::new(circuits@.len(), |c: int| vals2(circuits@[c]@)),
        point@.len() >= 1,
        circuits@.len() >= 1,
        forall|c: int| 0 <= c < circuits@.len() ==> k < (#[trigger] circuits@[c])@.len(),
        forall|c: int|
            0 <= c < circuits@.len() ==> (#[trigger] circuits@[c])@[k as int]@.len() >= 2 * two_to(
                point@.len(),
            ),
    ensures
        vals2(r@) == layer_tables(F::modulus(), cs, vals(point@), k as int),
        r@.len() == 2 * circuits@.len() + 1,
        uniform(vals2(r@), r@[0]@.len()),
        r@[0]@.len() == two_to(point@.len()),
{
    let ghost p = F::modulus();
    let n = circuits.len();
    let len0 = circuits[0][k].len();
    assert(circuits@[0]@[k as int]@.len() >= 2 * two_to(point@.len()));
    let size = pow_two(point.len());
    let mut r: Vec<Vec<F>> = Vec::new();
    proof {
        lemma_vals_reverse(point@);
        assert(vals(point@).reverse().reverse() =~= vals(point@));
    }
    let reversed = reverse_elements(point);
    r.push(compute_fourier_bases(reversed));
    let ghost target = layer_tables(p, cs, vals(point@), k as int);
    assert(vals(r@[0]@) == target[0]);
    let mut i: usize = 0;
    while i < n
        invariant
            i <= n,
            n == circuits@.len(),
            cs == Seq::new(circuits@.len(), |c: int| vals2(circuits@[c]@)),
            forall|c: int| 0 <= c < circuits@.len() ==> k < (#[trigger] circuits@[c])@.len(),
            forall|c: int|
                0 <= c < circuits@.len() ==> (#[trigger] circuits@[c])@[k as int]@.len() >= 2
                    * two_to(point@.len()),
            size == two_to(point@.len()),
            target == layer_tables(p, cs, vals(point@), k as int),
            r@.len() == 1 + i,
            forall|j: int| 0 <= j < r@.len() ==> vals(#[trigger] r@[j]@) == target[j],
        decreases n - i,
    {
        let t = take_children(&circuits[i][k], size, false);
        assert(cs[i as int][k as int] == vals(circuits@[i as int]@[k as int]@));
        assert(vals(t@) == target[1 + i]);
        r.push(t);
        i += 1;
    }
    i = 0;
    while i < n
        invariant
            i <= n,
            n == circuits@.len(),
            cs == Seq::new(circuits@.len(), |c: int| vals2(circuits@[c]@)),
            forall|c: int| 0 <= c < circuits@.len() ==> k < (#[trigger] circuits@[c])@.len(),
            forall|c: int|
                0 <= c < circuits@.len() ==> (#[trigger] circuits@[c])@[k as int]@.len() >= 2
                    * two_to(point@.len()),
            size == two_to(point@.len()),
            target == layer_tables(p, cs, vals(point@), k as int),
            r@.len() == 1 + n + i,
            forall|j: int| 0 <= j < r@.len() ==> vals(#[trigger] r@[j]@) == target[j],
        decreases n - i,
    {
        let t = take_children(&circuits[i][k], size, true);
        assert(cs[i as int][k as int] == vals(circuits@[i as int]@[k as int]@));
        assert(vals(t@) == target[1 + n + i]);
        r.push(t);
        i += 1;
    }
    proof {
        assert(vals2(r@) =~= target);
        assert(r@[0]@.len() == target[0].len());
        assert forall|j: int| 0 <= j < target.len() implies (#[trigger] target[j]).len()
            == two_to(point@.len()) by {}
    }
    r
}

/// The entries at the first `n` even indices, or at the odd indices next to these.
fn take_children<F: PrimeField>(t: &Vec<F>, n: usize, odd: bool) -> (r: Vec<F>)
    requires
        t@.len() >= 2 * n,
    ensures
        vals(r@) == children(vals(t@), n as nat, if odd { 1 } else { 0 }),
{
    let mut r: Vec<F> = Vec::new();
    let mut i: usize = 0;
    let len = t.len();
    let offset: usize = if odd { 1 } else { 0 };
    while i < n
        invariant
            i <= n,
            len == t@.len(),
            len >= 2 * n,
            offset == (if odd { 1int } else { 0int }),
            r@.len() == i,
            forall|j: int| 0 <= j < i ==> #[trigger] r@[j] == t@[2 * j + offset],
        decreases n - i,
    {
        r.push(t[2 * i + offset]);
        i += 1;
    }
    assert(vals(r@) =~= children(vals(t@), n as nat, if odd { 1 } else { 0 }));
    r
}

/// Runs the prover for product circuits that are given layer by layer, the inputs first. Returns
/// the point of the input layer, the coordinate of the highest bit first.
#[verifier::rlimit(60)]
pub fn gkr_prover<F: PrimeField, T: TranscriptWrite<F>>(
    circuits: &Vec<&Vec<Vec<F>>>,
    transcript: &mut T,
) -> (r: Vec<F>)
    requires
        circuits@.len() >= 1,
        circuits@.len() < usize::MAX / 2,
        circuits@[0]@.len() >= 2,
        circuits_fit(
            Seq::new(circuits@.len(), |c: int| vals2(circuits@[c]@)),
            (circuits@[0]@.len() - 1) as nat,
        ),
    ensures
        ({
            let cs = Seq::new(circuits@.len(), |c: int| vals2(circuits@[c]@));
            let s = gkr_prove(F::modulus(), T::oracle(), old(transcript).tx(), cs);
            &&& final(transcript).tx() == s.tx
            &&& vals(r@) == s.point
        }),
{
    let ghost p = F::modulus();
    let ghost ch = T::oracle();
    let ghost tx = transcript.tx();
    let ghost cs = Seq::new(circuits@.len(), |c: int| vals2(circuits@[c]@));
    let n = circuits.len();
    let depth = circuits[0].len() - 1;
    let mut finals: Vec<F> = Vec::new();
    let mut c: usize = 0;
    proof {
        assert(cs[0].len() == circuits@[0]@.len());
        lemma_two_to_positive(1);
    }
    while c < n
        invariant
            c <= n,
            n == circuits@.len(),
            cs == Seq::new(circuits@.len(), |c: int| vals2(circuits@[c]@)),
            depth >= 1,
            circuits_fit(cs, depth as nat),
            finals@.len() == 2 * c,
            forall|i: int|
                0 <= i < finals@.len() ==> #[trigger] finals@[i].value() == cs[i / 2][depth - 1][i % 2],
        decreases n - c,
    {
        assert(cs[c as int].len() == depth + 1);
        assert(cs[c as int][depth - 1].len() >= two_to(1));
        assert(two_to(1) == 2 * two_to(0));
        assert(cs[c as int][depth - 1] == vals(circuits@[c as int]@[depth - 1]@));
        finals.push(circuits[c][depth - 1][0]);
        finals.push(circuits[c][depth - 1][1]);
        c += 1;
    }
    assert(vals(finals@) =~= final_values(cs, depth as nat));
    write_field_elements(transcript, &finals);
    let r0 = transcript.squeeze_challenge();
    let mut point: Vec<F> = Vec::new();
    point.push(r0);
    let coeff = squeeze_challenges(transcript, n);
    let combiner = GateCombiner { coeff };
    let ghost cf = gkr_coefficients(ch, tx, cs, depth as nat);
    assert(vals(combiner.coeff@) == cf);
    assert(vals(point@) =~= gkr_layers(p, ch, tx, cs, depth as nat, 0).point);
    proof {
        assert(vals(combiner.coeff@).len() == combiner.coeff@.len());
        crate::transcript::lemma_challenges_len(
            ch,
            tx.write_all(final_values(cs, depth as nat)).squeeze().hist,
            n as nat,
        );
    }
    let mut k: usize = 0;
    while k + 1 < depth
        invariant
            k + 1 <= depth,
            n == circuits@.len(),
            1 <= n < usize::MAX / 2,
            p == F::modulus(),
            ch == T::oracle(),
            cs == Seq::new(circuits@.len(), |c: int| vals2(circuits@[c]@)),
            circuits_fit(cs, depth as nat),
            cf == gkr_coefficients(ch, tx, cs, depth as nat),
            vals(combiner.coeff@) == cf,
            combiner.coeff@.len() == n,
            point@.len() == k + 1,
            gkr_layers(p, ch, tx, cs, depth as nat, k as nat) == (GkrProving {
                tx: transcript.tx(),
                point: vals(point@),
            }),
        decreases depth - k,
    {
        let ghost before = transcript.tx();
        let layer: usize = depth - k - 2;
        proof {
            assert forall|c: int| 0 <= c < circuits@.len() implies layer < (#[trigger] circuits@[c])@.len()
                && circuits@[c]@[layer as int]@.len() >= 2 * two_to(point@.len()) by {
                assert(cs[c].len() == depth + 1);
                assert(cs[c][layer as int].len() >= two_to((depth - layer) as nat));
                assert(cs[c][layer as int] == vals(circuits@[c]@[layer as int]@));
                assert(two_to((depth - layer) as nat) == 2 * two_to((depth - layer - 1) as nat));
            }
        }
        let mut tables = build_layer_tables(circuits, &point, layer, Ghost(cs));
        let ghost start = vals2(tables@);
        let rs = sum_check_prove(&mut tables, &combiner, false, k + 1, transcript);
        let ghost run = prove_rounds(gkr_shape(p, ch), gate_comb(cf), before, start, (k + 1) as nat);
        assert(run.tables == vals2(tables@));
        proof {
            lemma_run_rows(gkr_shape(p, ch), gate_comb(cf), before, start, (k + 1) as nat, (k + 1) as nat);
        }
        let mut values: Vec<F> = Vec::new();
        let mut c: usize = 0;
        while c < n
            invariant
                c <= n,
                1 <= n < usize::MAX / 2,
                tables@.len() == 2 * n + 1,
                run.tables == vals2(tables@),
                uniform(run.tables, 1),
                values@.len() == 2 * c,
                forall|i: int|
                    0 <= i < values@.len() ==> #[trigger] values@[i].value() == run.tables[1 + i / 2
                        + (i % 2) * n][0],
            decreases n - c,
        {
            assert(run.tables[1 + c].len() == 1);
            assert(run.tables[1 + n + c].len() == 1);
            assert(0 * n == 0 && 1 * n == n);
            values.push(tables[1 + c][0]);
            values.push(tables[1 + n + c][0]);
            c += 1;
        }
        assert(vals(values@) =~= child_values(run.tables, n as nat));
        write_field_elements(transcript, &values);
        let r = transcript.squeeze_challenge();
        let ghost rsv = vals(rs@);
        let mut next = rs;
        next.push(r);
        assert(vals(next@) =~= rsv.push(r.value()));
        point = next;
        k += 1;
    }
    point
}

/// A finished sum-check leaves tables of one entry.
proof fn lemma_run_rows(sh: Shape, comb: Comb, tx: Tx, ts: Seq<Seq<int>>, n: nat, vars: nat)
    requires
        uniform(ts, two_to(vars)),
        n <= vars,
    ensures
        uniform(prove_rounds(sh, comb, tx, ts, n).tables, two_to((vars - n) as nat)),
        prove_rounds(sh, comb, tx, ts, n).tables.len() == ts.len(),
    decreases n,
{
    if n > 0 {
        lemma_run_rows(sh, comb, tx, ts, (n - 1) as nat, vars);
        let a = prove_rounds(sh, comb, tx, ts, (n - 1) as nat);
        let b = prove_rounds(sh, comb, tx, ts, n);
        let k = (vars - n) as nat;
        assert(two_to(k + 1) == 2 * two_to(k));
        assert forall|i: int| 0 <= i < b.tables.len() implies (#[trigger] b.tables[i]).len() == two_to(k) by {
            assert(a.tables[i].len() == two_to(k + 1));
        }
    }
}

/// The weighted sum of the values at `r` of the lines through the two values of every circuit.
pub open spec fn bound_claim(p: int, coeff: Seq<int>, v: Seq<int>, r: int) -> int {
    sum_of(coeff.len(), |c: int| coeff[c] * (v[2 * c] + (v[2 * c + 1] - v[2 * c]) * r)) % p
}

/// The weighted sum of the products of the two values of every circuit.
pub open spec fn product_claim(p: int, coeff: Seq<int>, v: Seq<int>) -> int {
    sum_of(coeff.len(), |c: int| coeff[c] * (v[2 * c] * v[2 * c + 1])) % p
}

/// Where the verifier stands between two layers.
pub struct GkrChecking {
    pub check: Check,
    pub claim: int,
    pub point: Seq<int>,
    pub coeff: Seq<int>,
    pub finals: Seq<int>,
}

/// The verifier before the first layer.
pub open spec fn gkr_check_start(p: int, ch: Oracle, check: Check, n: nat) -> GkrChecking {
    let (c1, finals) = check.read_many(2 * n);
    let (c2, r) = c1.squeeze(ch);
    let (c3, coeff) = c2.squeeze_many(ch, n);
    GkrChecking {
        check: c3,
        claim: bound_claim(p, coeff, finals, r),
        point: seq![r],
        coeff,
        finals,
    }
}

/// The step of the verifier from one layer to the next, over `k` rounds.
pub open spec fn gkr_check_layer(p: int, ch: Oracle, s: GkrChecking, n: nat, k: nat) -> GkrChecking {
    let v = check_rounds(gkr_shape(p, ch), s.check, s.claim, k);
    let (c1, claimed) = v.check.read_many(2 * n);
    let (c2, r) = c1.squeeze(ch);
    let c3 = c2.require(
        cong(p, v.claim, eq_points(s.point, v.point) * product_claim(p, s.coeff, claimed)),
        Error::GrandProduct,
    );
    GkrChecking {
        check: c3,
        claim: bound_claim(p, s.coeff, claimed, r),
        point: v.point.push(r),
        coeff: s.coeff,
        finals: s.finals,
    }
}

/// The verifier after `k` layers.
pub open spec fn gkr_check_layers(p: int, ch: Oracle, check: Check, n: nat, k: nat) -> GkrChecking
    decreases k,
{
    if k == 0 {
        gkr_check_start(p, ch, check, n)
    } else {
        gkr_check_layer(p, ch, gkr_check_layers(p, ch, check, n, (k - 1) as nat), n, k)
    }
}

/// The whole run of the verifier.
pub open spec fn gkr_check(p: int, ch: Oracle, check: Check, n: nat, depth: nat) -> GkrChecking {
    gkr_check_layers(p, ch, check, n, (depth - 1) as nat)
}

pub proof fn lemma_gkr_check_layer_failed(p: int, ch: Oracle, s: GkrChecking, n: nat, k: nat)
    requires
        s.check.err is Some,
    ensures
        gkr_check_layer(p, ch, s, n, k).check == s.check,
{
    let sh = gkr_shape(p, ch);
    lemma_check_rounds_failed(sh, s.check, s.claim, 0, k);
    let v = check_rounds(sh, s.check, s.claim, k);
    crate::transcript::lemma_read_many_failed(v.check, 0, 2 * n);
}

pub proof fn lemma_gkr_check_failed(p: int, ch: Oracle, check: Check, n: nat, k: nat, m: nat)
    requires
        gkr_check_layers(p, ch, check, n, k).check.err is Some,
        k <= m,
    ensures
        gkr_check_layers(p, ch, check, n, m).check == gkr_check_layers(p, ch, check, n, k).check,
    decreases m,
{
    if k < m {
        lemma_gkr_check_failed(p, ch, check, n, k, (m - 1) as nat);
        lemma_gkr_check_layer_failed(
            p,
            ch,
            gkr_check_layers(p, ch, check, n, (m - 1) as nat),
            n,
            m,
        );
    }
}

/// A failed check fails the whole protocol, unchanged.
pub proof fn lemma_gkr_check_from_failed(p: int, ch: Oracle, check: Check, n: nat, depth: nat)
    requires
        check.err is Some,
        depth >= 1,
    ensures
        gkr_check(p, ch, check, n, depth).check == check,
{
    crate::transcript::lemma_read_many_failed(check, 0, 2 * n);
    let c1 = check.read_many(2 * n).0;
    crate::transcript::lemma_squeeze_many_failed(c1, ch, n);
    assert(gkr_check_layers(p, ch, check, n, 0).check == check);
    lemma_gkr_check_failed(p, ch, check, n, 0, (depth - 1) as nat);
}

/// `bound_claim`, computed.
fn compute_bound_claim<F: PrimeField>(coeff: &Vec<F>, v: &Vec<F>, r: F) -> (claim: F)
    requires
        v@.len() == 2 * coeff@.len(),
    ensures
        claim.value() == bound_claim(F::modulus(), vals(coeff@), vals(v@), r.value()),
{
    let n = coeff.len();
    let len = v.len();
    let ghost p = F::modulus();
    let ghost cf = vals(coeff@);
    let ghost vv = vals(v@);
    let ghost f = |c: int| cf[c] * (vv[2 * c] + (vv[2 * c + 1] - vv[2 * c]) * r.value());
    let mut acc = F::zero();
    let mut c: usize = 0;
    proof {
        F::lemma_modulus();
        lemma_mod_small(p, 0);
        lemma_sum_step(0, f);
    }
    while c < n
        invariant
            c <= n,
            n == coeff@.len(),
            len == v@.len(),
            len == 2 * n,
            p == F::modulus(),
            p > 6,
            cf == vals(coeff@),
            vv == vals(v@),
            f == (|c: int| cf[c] * (vv[2 * c] + (vv[2 * c + 1] - vv[2 * c]) * r.value())),
            acc.value() == sum_of(c as nat, f) % p,
        decreases n - c,
    {
        let l = line_at(v[2 * c], v[2 * c + 1], r);
        let t = coeff[c].mul(l);
        let next = acc.add(t);
        proof {
            let (a, b) = (vv[2 * c], vv[2 * c + 1]);
            let line = a + (b - a) * r.value();
            lemma_cong_mod(p, line);
            lemma_cong_mul(p, cf[c as int], cf[c as int], l.value(), line);
            lemma_sum_step(c as nat, f);
            lemma_add_mod_noop(sum_of(c as nat, f), f(c as int), p);
        }
        acc = next;
        c += 1;
    }
    acc
}

/// `product_claim`, computed.
fn compute_product_claim<F: PrimeField>(coeff: &Vec<F>, v: &Vec<F>) -> (claim: F)
    requires
        v@.len() == 2 * coeff@.len(),
    ensures
        claim.value() == product_claim(F::modulus(), vals(coeff@), vals(v@)),
{
    let n = coeff.len();
    let len = v.len();
    let ghost p = F::modulus();
    let ghost cf = vals(coeff@);
    let ghost vv = vals(v@);
    let ghost f = |c: int| cf[c] * (vv[2 * c] * vv[2 * c + 1]);
    let mut acc = F::zero();
    let mut c: usize = 0;
    proof {
        F::lemma_modulus();
        lemma_mod_small(p, 0);
        lemma_sum_step(0, f);
    }
    while c < n
        invariant
            c <= n,
            n == coeff@.len(),
            len == v@.len(),
            len == 2 * n,
            p == F::modulus(),
            p > 6,
            cf == vals(coeff@),
            vv == vals(v@),
            f == (|c: int| cf[c] * (vv[2 * c] * vv[2 * c + 1])),
            acc.value() == sum_of(c as nat, f) % p,
        decreases n - c,
    {
        let t = term2(coeff[c], v[2 * c], v[2 * c + 1]);
        let next = acc.add(t);
        proof {
            lemma_sum_step(c as nat, f);
            lemma_add_mod_noop(sum_of(c as nat, f), f(c as int), p);
        }
        acc = next;
        c += 1;
    }
    acc
}

/// Runs the verifier. Returns what the weighted sum of the input layers has to be at the point
/// that is returned with it, the weights, that point, and the two values of every circuit in the
/// layer below the output.
#[verifier::rlimit(60)]
pub fn gkr_verifier<F: PrimeField, T: TranscriptRead<F>>(
    depth: usize,
    transcript: &mut T,
    n_circuits: usize,
) -> (res: Result<(F, Vec<F>, Vec<F>, Vec<F>), Error>)
    requires
        depth >= 1,
        n_circuits <= usize::MAX / 2,
    ensures
        ({
            let s = gkr_check(
                F::modulus(),
                T::oracle(),
                checking(old(transcript).rx()),
                n_circuits as nat,
                depth as nat,
            );
            &&& final(transcript).rx() == s.check.rx
            &&& outcome(res, s.check.err)
            &&& res matches Ok(x) ==> x.0.value() == s.claim && vals(x.1@) == s.coeff && vals(x.2@)
                == s.point && vals(x.3@) == s.finals && x.1@.len() == n_circuits && x.2@.len()
                == depth && x.3@.len() == 2 * n_circuits
        }),
{
    let ghost p = F::modulus();
    let ghost ch = T::oracle();
    let ghost check = checking(transcript.rx());
    let ghost n = n_circuits as nat;
    let final_evaluations = match read_field_elements::<F, T>(transcript, n_circuits * 2) {
        Ok(v) => v,
        Err(e) => {
            proof {
                crate::transcript::lemma_squeeze_many_failed(check.read_many(2 * n).0, ch, n);
                lemma_gkr_check_failed(p, ch, check, n, 0, (depth - 1) as nat);
            }
            return Err(e);
        },
    };
    proof {
        crate::transcript::lemma_read_many_len(check, 2 * n);
        assert(vals(final_evaluations@).len() == final_evaluations@.len());
    }
    let r0 = transcript.squeeze_challenge();
    let coeff = read_challenges::<F, T>(transcript, n_circuits);
    proof {
        let c2 = check.read_many(2 * n).0.squeeze(ch).0;
        crate::transcript::lemma_squeeze_many_rx(c2, ch, n);
        crate::transcript::lemma_challenges_len(ch, c2.rx.hist, n);
        assert(vals(coeff@).len() == coeff@.len());
    }
    let mut claim = compute_bound_claim(&coeff, &final_evaluations, r0);
    let mut point: Vec<F> = Vec::new();
    point.push(r0);
    assert(vals(point@) =~= seq![r0.value()]);
    let mut k: usize = 0;
    while k + 1 < depth
        invariant
            k + 1 <= depth,
            n == n_circuits as nat,
            n_circuits <= usize::MAX / 2,
            p == F::modulus(),
            ch == T::oracle(),
            check == checking(old(transcript).rx()),
            coeff@.len() == n_circuits,
            final_evaluations@.len() == 2 * n_circuits,
            point@.len() == k + 1,
            gkr_check_layers(p, ch, check, n, k as nat) == (GkrChecking {
                check: checking(transcript.rx()),
                claim: claim.value(),
                point: vals(point@),
                coeff: vals(coeff@),
                finals: vals(final_evaluations@),
            }),
        decreases depth - k,
    {
        let ghost s = gkr_check_layers(p, ch, check, n, k as nat);
        let ghost v = check_rounds(gkr_shape(p, ch), s.check, s.claim, (k + 1) as nat);
        let ghost c1 = v.check.read_many(2 * n).0;
        let (last, rs) = match sum_check_verify::<F, T>(claim, 3, false, k + 1, transcript) {
            Ok(x) => x,
            Err(e) => {
                proof {
                    crate::transcript::lemma_read_many_failed(v.check, 0, 2 * n);
                    lemma_gkr_check_failed(p, ch, check, n, (k + 1) as nat, (depth - 1) as nat);
                }
                return Err(e);
            },
        };
        let claimed = match read_field_elements::<F, T>(transcript, n_circuits * 2) {
            Ok(x) => x,
            Err(e) => {
                proof {
                    lemma_gkr_check_failed(p, ch, check, n, (k + 1) as nat, (depth - 1) as nat);
                }
                return Err(e);
            },
        };
        proof {
            crate::transcript::lemma_read_many_len(v.check, 2 * n);
            assert(vals(claimed@).len() == claimed@.len());
        }
        let product = compute_product_claim(&coeff, &claimed);
        let r = transcript.squeeze_challenge();
        let eq = evaluate_eq(&point, &rs);
        let expected = eq.mul(product);
        proof {
            F::lemma_modulus();
            let e = eq_points(s.point, v.point);
            lemma_cong_mod(p, e);
            lemma_cong_mul(p, eq.value(), e, product.value(), product.value());
            last.lemma_value();
            lemma_mod_small(p, last.value());
        }
        if !last.equals(expected) {
            proof {
                lemma_gkr_check_failed(p, ch, check, n, (k + 1) as nat, (depth - 1) as nat);
            }
            return Err(Error::GrandProduct);
        }
        claim = compute_bound_claim(&coeff, &claimed, r);
        let ghost rsv = vals(rs@);
        let mut next = rs;
        next.push(r);
        assert(vals(next@) =~= rsv.push(r.value()));
        point = next;
        k += 1;
    }
    Ok((claim, coeff, point, final_evaluations))
}

/// All layers have their full length, and every gate holds the product of its children.
pub open spec fn circuits_multiply(p: int, circuits: Seq<Seq<Seq<int>>>, depth: nat) -> bool {
    &&& circuits_fit(circuits, depth)
    &&& forall|c: int, k: int|
        #![trigger circuits[c][k]]
        0 <= c < circuits.len() && 0 <= k < depth ==> circuits[c][k].len() == two_to((depth - k) as nat)
            && canonical(p, circuits[c][k])
    &&& forall|c: int, k: int, i: int|
        #![trigger circuits[c][k][i]]
        0 <= c < circuits.len() && 1 <= k < depth && 0 <= i < two_to((depth - k) as nat)
            ==> circuits[c][k][i] == (circuits[c][k - 1][2 * i] * circuits[c][k - 1][2 * i + 1]) % p
}

/// The weighted sum of the polynomials of the layer `k` of all circuits at a point.
pub open spec fn layer_claim(
    p: int,
    coeff: Seq<int>,
    circuits: Seq<Seq<Seq<int>>>,
    k: int,
    point: Seq<int>,
) -> int {
    sum_of(coeff.len(), |c: int| coeff[c] * mle(p, circuits[c][k], point)) % p
}

pub proof fn lemma_layer_tables_shape(p: int, circuits: Seq<Seq<Seq<int>>>, point: Seq<int>, k: int, depth: nat)
    requires
        p > 0,
        circuits_multiply(p, circuits, depth),
        0 <= k,
        point.len() == depth - k - 1,
    ensures
        ({
            let ts = layer_tables(p, circuits, point, k);
            &&& uniform(ts, two_to(point.len()))
            &&& all_canonical(p, ts)
            &&& ts.len() == 2 * circuits.len() + 1
        }),
{
    let ts = layer_tables(p, circuits, point, k);
    let n = circuits.len();
    let size = two_to(point.len());
    assert(two_to((depth - k) as nat) == 2 * size);
    assert forall|i: int| 0 <= i < ts.len() implies canonical(p, #[trigger] ts[i]) by {
        if i == 0 {
            assert forall|j: int| 0 <= j < basis(p, point).len() implies 0 <= #[trigger] basis(p, point)[j] < p by {
                lemma_mod_canonical(p, eq_prod(j, point));
            }
        } else {
            let c = if i <= n { i - 1 } else { i - 1 - n };
            let t = circuits[c][k];
            assert(t.len() == 2 * size && canonical(p, t));
            assert forall|j: int| 0 <= j < size implies 0 <= #[trigger] ts[i][j] < p by {
                if i <= n {
                    assert(ts[i][j] == t[2 * j]);
                } else {
                    assert(ts[i][j] == t[2 * j + 1]);
                }
            }
        }
    }
}

/// The claim for one layer is the sum that the sum-check down to the next layer is about.
pub proof fn lemma_layer_total(
    p: int,
    coeff: Seq<int>,
    circuits: Seq<Seq<Seq<int>>>,
    point: Seq<int>,
    k: int,
    depth: nat,
)
    requires
        p > 0,
        circuits_multiply(p, circuits, depth),
        coeff.len() == circuits.len(),
        0 <= k,
        point.len() == depth - k - 1,
        point.len() >= 1,
    ensures
        layer_claim(p, coeff, circuits, k + 1, point) == total(
            gate_comb(coeff),
            layer_tables(p, circuits, point, k),
        ) % p,
{
    let n = coeff.len();
    let ts = layer_tables(p, circuits, point, k);
    let size = two_to(point.len());
    assert(two_to((depth - k) as nat) == 2 * size);
    let f = |j: int, c: int| coeff[c] * (ts[0][j] * ts[1 + c][j] * ts[1 + n + c][j]);
    lemma_sum_exchange(size, n, f);
    assert(ts[0].len() == size);
    // the total, with the inner sum written out
    let g = |j: int| sum_of(n, |c: int| f(j, c));
    assert forall|j: int| 0 <= j < size implies gate_comb(coeff)(row(ts, j)) == #[trigger] g(j) by {
        let v = row(ts, j);
        lemma_sum_ext(
            n,
            |c: int| coeff[c] * (v[0] * v[1 + c] * v[1 + coeff.len() + c]),
            |c: int| f(j, c),
        );
    }
    lemma_sum_ext(size, |j: int| gate_comb(coeff)(row(ts, j)), g);
    // circuit by circuit
    let a = |c: int| coeff[c] * mle(p, circuits[c][k + 1], point);
    let b = |c: int| sum_of(size, |j: int| f(j, c));
    assert forall|c: int| 0 <= c < n implies cong(p, #[trigger] a(c), b(c)) by {
        let t = circuits[c][k + 1];
        let h = |j: int| ts[0][j] * ts[1 + c][j] * ts[1 + n + c][j];
        lemma_sum_factor(size, coeff[c], h);
        lemma_sum_ext(size, |j: int| f(j, c), |j: int| coeff[c] * h(j));
        assert(t.len() == size);
        let u = |j: int| t[j] * basis(p, point)[j];
        assert forall|j: int| 0 <= j < size implies cong(p, #[trigger] u(j), h(j)) by {
            let (x, y, z) = (ts[0][j], ts[1 + c][j], ts[1 + n + c][j]);
            assert(y == circuits[c][k][2 * j]);
            assert(z == circuits[c][k][2 * j + 1]);
            assert(circuits[c][k + 1][j] == (y * z) % p);
            lemma_cong_mod(p, y * z);
            lemma_cong_mul(p, t[j], y * z, x, x);
            assert((y * z) * x == x * y * z) by (nonlinear_arith);
        }
        lemma_sum_of_cong(p, size, u, h);
        assert(dot(t, basis(p, point)) == sum_of(size, u)) by {
            assert(Seq::new(size, |j: int| t[j] * basis(p, point)[j]) =~= Seq::new(size, u));
        }
        lemma_cong_mod(p, dot(t, basis(p, point)));
        lemma_cong_mul(p, coeff[c], coeff[c], mle(p, t, point), sum_of(size, h));
    }
    lemma_sum_of_cong(p, n, a, b);
    assert(layer_claim(p, coeff, circuits, k + 1, point) == sum_of(n, a) % p);
    lemma_sum_ext(n, |c: int| sum_of(size, |j: int| f(j, c)), b);
}

/// What a finished sum-check leaves of the children of a layer are their values at the point.
pub proof fn lemma_child_values(
    p: int,
    circuits: Seq<Seq<Seq<int>>>,
    point: Seq<int>,
    rs: Seq<int>,
    k: int,
    depth: nat,
)
    requires
        p > 0,
        circuits_multiply(p, circuits, depth),
        0 <= k,
        point.len() == depth - k - 1,
        rs.len() == point.len(),
    ensures
        ({
            let v = child_values(bind_all(p, layer_tables(p, circuits, point, k), rs), circuits.len());
            let size = two_to(point.len());
            forall|c: int|
                #![trigger circuits[c]]
                0 <= c < circuits.len() ==> v[2 * c] == mle(p, children(circuits[c][k], size, 0), rs)
                    && v[2 * c + 1] == mle(p, children(circuits[c][k], size, 1), rs)
        }),
{
    let ts = layer_tables(p, circuits, point, k);
    lemma_layer_tables_shape(p, circuits, point, k, depth);
    let bs = bind_all(p, ts, rs);
    let n = circuits.len();
    let v = child_values(bs, n);
    let size = two_to(point.len());
    assert forall|c: int|
        #![trigger circuits[c]]
        0 <= c < n implies v[2 * c] == mle(p, children(circuits[c][k], size, 0), rs) && v[2 * c + 1]
        == mle(p, children(circuits[c][k], size, 1), rs) by {
        assert(0 * n == 0 && 1 * n == n);
        assert((2 * c) / 2 == c && (2 * c) % 2 == 0);
        assert((2 * c + 1) / 2 == c && (2 * c + 1) % 2 == 1);
        assert(v[2 * c] == bs[1 + c][0]);
        assert(v[2 * c + 1] == bs[1 + c + n][0]);
        assert(ts[1 + c] == children(circuits[c][k], size, 0));
        assert(ts[1 + c + n] == children(circuits[c][k], size, 1));
        assert(canonical(p, ts[1 + c]) && canonical(p, ts[1 + c + n]));
        assert(ts[1 + c].len() == size && ts[1 + c + n].len() == size);
        law_bind_evaluates(p, ts[1 + c], rs);
        law_bind_evaluates(p, ts[1 + c + n], rs);
    }
}

/// The claim that the verifier forms for the next layer is the right one.
pub proof fn lemma_next_claim(
    p: int,
    coeff: Seq<int>,
    circuits: Seq<Seq<Seq<int>>>,
    v: Seq<int>,
    rs: Seq<int>,
    r: int,
    k: int,
    depth: nat,
)
    requires
        p > 0,
        circuits_multiply(p, circuits, depth),
        coeff.len() == circuits.len(),
        0 <= k,
        rs.len() == depth - k - 1,
        forall|c: int|
            #![trigger circuits[c]]
            0 <= c < circuits.len() ==> v[2 * c] == mle(
                p,
                children(circuits[c][k], two_to(rs.len()), 0),
                rs,
            ) && v[2 * c + 1] == mle(p, children(circuits[c][k], two_to(rs.len()), 1), rs),
    ensures
        bound_claim(p, coeff, v, r) == layer_claim(p, coeff, circuits, k, rs.push(r)),
{
    let n = coeff.len();
    let size = two_to(rs.len());
    let a = |c: int| coeff[c] * (v[2 * c] + (v[2 * c + 1] - v[2 * c]) * r);
    let b = |c: int| coeff[c] * mle(p, circuits[c][k], rs.push(r));
    assert forall|c: int| 0 <= c < n implies cong(p, #[trigger] a(c), b(c)) by {
        let t = circuits[c][k];
        assert(t.len() == two_to((depth - k) as nat));
        lemma_mle_last(p, t, rs, r);
        assert(children(t, size, 0) =~= Seq::new(size, |i: int| t[2 * i]));
        assert(children(t, size, 1) =~= Seq::new(size, |i: int| t[2 * i + 1]));
        let line = v[2 * c] + (v[2 * c + 1] - v[2 * c]) * r;
        lemma_cong_mul(p, coeff[c], coeff[c], line, mle(p, t, rs.push(r)));
    }
    lemma_sum_of_cong(p, n, a, b);
}

/// The last claim of the sum-check of a layer is what the verifier computes from the children.
pub proof fn lemma_layer_end(
    p: int,
    coeff: Seq<int>,
    circuits: Seq<Seq<Seq<int>>>,
    point: Seq<int>,
    rs: Seq<int>,
    k: int,
    depth: nat,
)
    requires
        p > 0,
        circuits_multiply(p, circuits, depth),
        coeff.len() == circuits.len(),
        0 <= k,
        point.len() == depth - k - 1,
        rs.len() == point.len(),
    ensures
        ({
            let bs = bind_all(p, layer_tables(p, circuits, point, k), rs);
            let v = child_values(bs, circuits.len());
            cong(
                p,
                total(gate_comb(coeff), bs),
                eq_points(point, rs) * product_claim(p, coeff, v),
            )
        }),
{
    let n = coeff.len();
    let ts = layer_tables(p, circuits, point, k);
    lemma_layer_tables_shape(p, circuits, point, k, depth);
    let bs = bind_all(p, ts, rs);
    let v = child_values(bs, n);
    assert(ts[0] == basis(p, point));
    lemma_bind_basis(p, point, rs);
    assert(bs[0].len() == 1);
    let comb = gate_comb(coeff);
    let f = |j: int| comb(row(bs, j));
    lemma_sum_step(0, f);
    let e = eq_points(point, rs);
    let b0 = bs[0][0];
    let w = row(bs, 0);
    let prod = |c: int| coeff[c] * (v[2 * c] * v[2 * c + 1]);
    let gates = |c: int| coeff[c] * (w[0] * w[1 + c] * w[1 + coeff.len() + c]);
    assert forall|c: int| 0 <= c < n implies #[trigger] gates(c) == b0 * prod(c) by {
        assert(0 * n == 0 && 1 * n == n);
        assert((2 * c) / 2 == c && (2 * c) % 2 == 0);
        assert((2 * c + 1) / 2 == c && (2 * c + 1) % 2 == 1);
        assert(w[1 + c] == v[2 * c]);
        assert(w[1 + n + c] == v[2 * c + 1]);
        let (x, y, z) = (coeff[c], v[2 * c], v[2 * c + 1]);
        assert(x * (b0 * y * z) == b0 * (x * (y * z))) by (nonlinear_arith);
    }
    lemma_sum_ext(n, gates, |c: int| b0 * prod(c));
    lemma_sum_factor(n, b0, prod);
    let s = sum_of(n, prod);
    assert(product_claim(p, coeff, v) == s % p);
    lemma_cong_mod(p, s);
    lemma_cong_mul(p, b0, e, s, s % p);
    assert(total(comb, bs) == b0 * s);
}

pub proof fn lemma_gkr_extends(p: int, ch: Oracle, tx: Tx, circuits: Seq<Seq<Seq<int>>>, depth: nat, k: nat)
    requires
        p > 6,
        p % 2 == 1,
        p % 3 != 0,
        oracle_reduced(p, ch),
        circuits_multiply(p, circuits, depth),
        k + 1 <= depth,
    ensures
        crate::transcript::extends(tx, gkr_layers(p, ch, tx, circuits, depth, k).tx),
        gkr_layers(p, ch, tx, circuits, depth, k).point.len() == k + 1,
        canonical(p, gkr_layers(p, ch, tx, circuits, depth, k).point),
    decreases k,
{
    if k == 0 {
        let f = final_values(circuits, depth);
        crate::transcript::lemma_write_all_extends(tx, f);
        crate::transcript::lemma_squeeze_many_hist(tx.write_all(f).squeeze(), circuits.len());
    } else {
        lemma_gkr_extends(p, ch, tx, circuits, depth, (k - 1) as nat);
        let s = gkr_layers(p, ch, tx, circuits, depth, (k - 1) as nat);
        let coeff = gkr_coefficients(ch, tx, circuits, depth);
        let ts = layer_tables(p, circuits, s.point, depth - k - 1);
        let sh = gkr_shape(p, ch);
        lemma_layer_tables_shape(p, circuits, s.point, depth - k - 1, depth);
        lemma_prove_rounds_shape(sh, gate_comb(coeff), s.tx, ts, k, k);
        let r = prove_rounds(sh, gate_comb(coeff), s.tx, ts, k);
        let v = child_values(r.tables, circuits.len());
        crate::transcript::lemma_write_all_extends(r.tx, v);
        crate::transcript::lemma_prefix_trans(tx.proof, s.tx.proof, r.tx.proof);
        crate::transcript::lemma_prefix_trans(tx.proof, r.tx.proof, r.tx.write_all(v).proof);
    }
}

/// A verifier accepts every layer of an honest prover, draws the same challenges, and is left
/// with the claim that holds of the layer it has come to.
pub proof fn lemma_gkr_complete(
    p: int,
    ch: Oracle,
    tx: Tx,
    circuits: Seq<Seq<Seq<int>>>,
    depth: nat,
    k: nat,
    full: Seq<Event>,
    check: Check,
)
    requires
        p > 6,
        p % 2 == 1,
        p % 3 != 0,
        oracle_reduced(p, ch),
        circuits_multiply(p, circuits, depth),
        k + 1 <= depth,
        synced(tx, full, check),
        gkr_layers(p, ch, tx, circuits, depth, k).tx.proof.is_prefix_of(full),
    ensures
        ({
            let s = gkr_layers(p, ch, tx, circuits, depth, k);
            let v = gkr_check_layers(p, ch, check, circuits.len(), k);
            let coeff = gkr_coefficients(ch, tx, circuits, depth);
            &&& synced(s.tx, full, v.check)
            &&& v.point == s.point
            &&& v.coeff == coeff
            &&& coeff.len() == circuits.len()
            &&& v.finals == final_values(circuits, depth)
            &&& v.claim == layer_claim(p, coeff, circuits, depth - k - 1, s.point)
        }),
    decreases k,
{
    let n = circuits.len();
    let coeff = gkr_coefficients(ch, tx, circuits, depth);
    let finals = final_values(circuits, depth);
    let t1 = tx.write_all(finals);
    crate::transcript::lemma_challenges_len(ch, t1.squeeze().hist, n);
    if k == 0 {
        crate::transcript::lemma_squeeze_many_hist(t1.squeeze(), n);
        crate::transcript::law_read_all_written(tx, full, check, finals);
        let c1 = check.read_many(2 * n).0;
        crate::transcript::law_same_challenge(t1, full, c1, ch);
        let c2 = c1.squeeze(ch).0;
        crate::transcript::law_same_challenges(t1.squeeze(), full, c2, ch, n);
        let r = ch(t1.hist);
        let rs = Seq::<int>::empty();
        assert(rs.push(r) =~= seq![r]);
        assert forall|c: int|
            #![trigger circuits[c]]
            0 <= c < n implies finals[2 * c] == mle(p, children(circuits[c][depth - 1], two_to(0), 0), rs)
            && finals[2 * c + 1] == mle(p, children(circuits[c][depth - 1], two_to(0), 1), rs) by {
            assert((2 * c) / 2 == c && (2 * c) % 2 == 0);
            assert((2 * c + 1) / 2 == c && (2 * c + 1) % 2 == 1);
            let t = circuits[c][depth - 1];
            assert(two_to(1) == 2 * two_to(0));
            assert(t.len() == two_to(1) && canonical(p, t));
            let (a, b) = (children(t, 1, 0), children(t, 1, 1));
            assert(canonical(p, a)) by {
                assert(a[0] == t[0]);
            }
            assert(canonical(p, b)) by {
                assert(b[0] == t[1]);
            }
            law_bind_evaluates(p, a, rs);
            law_bind_evaluates(p, b, rs);
        }
        lemma_next_claim(p, coeff, circuits, finals, rs, r, depth - 1, depth);
    } else {
        let j = (k - 1) as nat;
        let s = gkr_layers(p, ch, tx, circuits, depth, j);
        let v = gkr_check_layers(p, ch, check, n, j);
        lemma_gkr_extends(p, ch, tx, circuits, depth, j);
        let kk = depth - k - 1;
        let ts = layer_tables(p, circuits, s.point, kk);
        let sh = gkr_shape(p, ch);
        let comb = gate_comb(coeff);
        lemma_layer_tables_shape(p, circuits, s.point, kk, depth);
        lemma_prove_rounds_shape(sh, comb, s.tx, ts, k, k);
        let r = prove_rounds(sh, comb, s.tx, ts, k);
        let vals_ = child_values(r.tables, n);
        let t = r.tx.write_all(vals_);
        crate::transcript::lemma_write_all_extends(r.tx, vals_);
        crate::transcript::lemma_prefix_trans(r.tx.proof, t.proof, full);
        crate::transcript::lemma_prefix_trans(s.tx.proof, r.tx.proof, full);
        lemma_gkr_complete(p, ch, tx, circuits, depth, j, full, check);
        lemma_gate_comb(p, coeff);
        lemma_layer_total(p, coeff, circuits, s.point, kk, depth);
        assert(v.claim == total(comb, ts) % p);
        law_sum_check_complete(sh, comb, s.tx, ts, k, k, full, v.check, v.claim);
        let w = check_rounds(sh, v.check, v.claim, k);
        assert(bind_all(p, ts, r.point) == r.tables);
        crate::transcript::law_read_all_written(r.tx, full, w.check, vals_);
        let c1 = w.check.read_many(2 * n).0;
        crate::transcript::law_same_challenge(t, full, c1, ch);
        lemma_layer_end(p, coeff, circuits, s.point, r.point, kk, depth);
        lemma_cong_mod(p, total(comb, r.tables));
        lemma_child_values(p, circuits, s.point, r.point, kk, depth);
        lemma_next_claim(p, coeff, circuits, vals_, r.point, ch(t.hist), kk, depth);
    }
}

/// The polynomial of a layer is a cubic.
pub proof fn lemma_gate_comb(p: int, coeff: Seq<int>)
    requires
        p > 0,
    ensures
        has_degree(gate_comb(coeff), 2 * coeff.len() + 1, 3),
        respects(p, gate_comb(coeff), 2 * coeff.len() + 1),
{
    lemma_gate_partial(p, coeff, coeff.len());
    let n = coeff.len();
    let f = |v: Seq<int>| gate_sum(coeff, v, n);
    assert(f =~= gate_comb(coeff));
}

/// The protocol is complete: for circuits in which every gate holds the product of its children
/// the verifier accepts, and what it returns are the weights that were drawn, the values of the
/// layer below the outputs, the point of the prover, and the weighted sum of the polynomials of the
/// input layers there.
pub proof fn law_gkr_complete(
    p: int,
    ch: Oracle,
    tx: Tx,
    circuits: Seq<Seq<Seq<int>>>,
    depth: nat,
    full: Seq<Event>,
    check: Check,
)
    requires
        p > 6,
        p % 2 == 1,
        p % 3 != 0,
        oracle_reduced(p, ch),
        circuits_multiply(p, circuits, depth),
        synced(tx, full, check),
        gkr_prove(p, ch, tx, circuits).tx.proof.is_prefix_of(full),
    ensures
        ({
            let s = gkr_prove(p, ch, tx, circuits);
            let v = gkr_check(p, ch, check, circuits.len(), depth);
            &&& synced(s.tx, full, v.check)
            &&& v.point == s.point
            &&& v.finals == final_values(circuits, depth)
            &&& v.coeff == gkr_coefficients(ch, tx, circuits, depth)
            &&& v.coeff.len() == circuits.len()
            &&& v.claim == layer_claim(p, v.coeff, circuits, 0, s.point)
        }),
{
    assert(circuits[0].len() == depth + 1);
    lemma_gkr_complete(p, ch, tx, circuits, depth, (depth - 1) as nat, full, check);
}

} // verus!
