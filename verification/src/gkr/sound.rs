//! Whoever the prover of grand products is: outputs that are accepted are right, but for challenges
//! that happen to hide a mistake.
use vstd::prelude::*;
use crate::accepted::{gate_total, law_gkr_accepted, law_layer_accepted, line_total};
use crate::algebra::{canonical, cong, lemma_cong_mod, lemma_cong_mul, two_to};
use crate::gkr::gkr::{
    GkrChecking, bound_claim, child_values, children, circuits_multiply, final_values, gate_comb,
    gkr_check, gkr_check_layer, gkr_check_layers, layer_claim, layer_tables, lemma_child_values,
    lemma_gate_comb, lemma_gkr_check_failed, lemma_layer_end, lemma_layer_tables_shape,
    lemma_layer_total, lemma_next_claim, product_claim,
};
use crate::multilinear::{bind_all, eq_points, law_bind_evaluates, mle};
use crate::rounds::{Shape, check_rounds, total};
use crate::soundness::{elements, law_rounds_checked, law_sum_check_sound, lucky_round};
use crate::sums::lemma_sum_of_cong;
use crate::transcript::{Check, Oracle};

verus! {

/// Values that are congruent to others, circuit by circuit.
pub open spec fn same_values(p: int, n: nat, e: Seq<int>, t: Seq<int>) -> bool {
    forall|c: int|
        0 <= c < n ==> cong(p, #[trigger] e[2 * c], t[2 * c]) && cong(p, e[2 * c + 1], t[2 * c + 1])
}

/// The values are not the right ones, but the lines through them lead to the right sum at the
/// challenge.
pub open spec fn lucky_lines(p: int, n: nat, coeff: Seq<int>, e: Seq<int>, t: Seq<int>, r: int) -> bool {
    &&& !same_values(p, n, e, t)
    &&& cong(p, line_total(n, coeff, e, r), line_total(n, coeff, t, r))
}

/// A challenge of the layer over `k` rounds, from the state `a`, hides a mistake: in one of the rounds
/// of its sum-check, or in the step to the layer below.
pub open spec fn lucky_layer(
    p: int,
    ch: Oracle,
    circuits: Seq<Seq<Seq<int>>>,
    depth: nat,
    a: GkrChecking,
    k: nat,
) -> bool {
    let n = circuits.len();
    let sh = Shape { p, ch, degree: 3, descending: false };
    let v = check_rounds(sh, a.check, a.claim, k);
    let ts = layer_tables(p, circuits, a.point, depth - k - 1);
    let s = a.check.rx.stream;
    let r = gkr_check_layer(p, ch, a, n, k).point.last();
    ||| exists|i: int|
        0 <= i < k && #[trigger] lucky_round(sh, gate_comb(a.coeff), ts, s, v.point, i)
    ||| lucky_lines(
        p,
        n,
        a.coeff,
        elements(s, 4 * k as int, 2 * n),
        child_values(bind_all(p, ts, v.point), n),
        r,
    )
}

proof fn lemma_gates_cong(p: int, n: nat, coeff: Seq<int>, e: Seq<int>, t: Seq<int>)
    requires
        p > 0,
        same_values(p, n, e, t),
    ensures
        cong(p, gate_total(n, coeff, e), gate_total(n, coeff, t)),
{
    let f = |c: int| coeff[c] * (e[2 * c] * e[2 * c + 1]);
    let g = |c: int| coeff[c] * (t[2 * c] * t[2 * c + 1]);
    assert forall|c: int| 0 <= c < n implies cong(p, #[trigger] f(c), g(c)) by {
        assert(cong(p, e[2 * c], t[2 * c]));
        lemma_cong_mul(p, e[2 * c], t[2 * c], e[2 * c + 1], t[2 * c + 1]);
        lemma_cong_mul(p, coeff[c], coeff[c], e[2 * c] * e[2 * c + 1], t[2 * c] * t[2 * c + 1]);
    }
    lemma_sum_of_cong(p, n, f, g);
}

/// A layer that is accepted from a false claim leaves a false claim on the layer below, but for a
/// challenge that hides the mistake.
pub proof fn law_layer_sound(
    p: int,
    ch: Oracle,
    circuits: Seq<Seq<Seq<int>>>,
    depth: nat,
    a: GkrChecking,
    k: nat,
)
    requires
        p > 0,
        circuits_multiply(p, circuits, depth),
        1 <= k < depth,
        a.coeff.len() == circuits.len(),
        a.point.len() == k,
        gkr_check_layer(p, ch, a, circuits.len(), k).check.err is None,
        !cong(p, a.claim, layer_claim(p, a.coeff, circuits, depth - k, a.point)),
    ensures
        ({
            let b = gkr_check_layer(p, ch, a, circuits.len(), k);
            !cong(p, b.claim, layer_claim(p, a.coeff, circuits, depth - k - 1, b.point))
                || lucky_layer(p, ch, circuits, depth, a, k)
        }),
{
    let n = circuits.len();
    let b = gkr_check_layer(p, ch, a, n, k);
    let sh = Shape { p, ch, degree: 3, descending: false };
    let v = check_rounds(sh, a.check, a.claim, k);
    let kk = depth - k - 1;
    let ts = layer_tables(p, circuits, a.point, kk);
    let s = a.check.rx.stream;
    let comb = gate_comb(a.coeff);
    law_layer_accepted(p, ch, a, n, k);
    law_rounds_checked(sh, a.check, a.claim, k);
    lemma_layer_tables_shape(p, circuits, a.point, kk, depth);
    lemma_layer_total(p, a.coeff, circuits, a.point, kk, depth);
    lemma_cong_mod(p, total(comb, ts));
    lemma_gate_comb(p, a.coeff);
    law_sum_check_sound(sh, comb, ts, k, k, a.check, a.claim);
    if !exists|i: int| 0 <= i < k && #[trigger] lucky_round(sh, comb, ts, s, v.point, i) {
        let bs = bind_all(p, ts, v.point);
        let t = child_values(bs, n);
        let e = elements(s, 4 * k as int, 2 * n);
        let r = b.point.last();
        lemma_layer_end(p, a.coeff, circuits, a.point, v.point, kk, depth);
        let q = eq_points(a.point, v.point);
        lemma_cong_mod(p, gate_total(n, a.coeff, t));
        lemma_cong_mul(p, q, q, product_claim(p, a.coeff, t), gate_total(n, a.coeff, t));
        if same_values(p, n, e, t) {
            lemma_gates_cong(p, n, a.coeff, e, t);
            lemma_cong_mul(p, q, q, gate_total(n, a.coeff, e), gate_total(n, a.coeff, t));
        }
        lemma_child_values(p, circuits, a.point, v.point, kk, depth);
        lemma_next_claim(p, a.coeff, circuits, t, v.point, r, kk, depth);
        lemma_cong_mod(p, line_total(n, a.coeff, t, r));
        assert(b.point == v.point.push(r));
    }
}

/// The claim that the right outputs lead to.
proof fn lemma_final_claim(
    p: int,
    coeff: Seq<int>,
    circuits: Seq<Seq<Seq<int>>>,
    depth: nat,
    r: int,
)
    requires
        p > 0,
        depth >= 1,
        circuits_multiply(p, circuits, depth),
        coeff.len() == circuits.len(),
    ensures
        cong(
            p,
            line_total(circuits.len(), coeff, final_values(circuits, depth), r),
            layer_claim(p, coeff, circuits, depth - 1, seq![r]),
        ),
{
    let n = circuits.len();
    let f = final_values(circuits, depth);
    let rs = Seq::<int>::empty();
    assert(rs.push(r) =~= seq![r]);
    assert forall|c: int|
        #![trigger circuits[c]]
        0 <= c < n implies f[2 * c] == mle(p, children(circuits[c][depth - 1], two_to(0), 0), rs)
        && f[2 * c + 1] == mle(p, children(circuits[c][depth - 1], two_to(0), 1), rs) by {
        assert((2 * c) / 2 == c && (2 * c) % 2 == 0);
        assert((2 * c + 1) / 2 == c && (2 * c + 1) % 2 == 1);
        let t = circuits[c][depth - 1];
        assert(two_to(1) == 2 * two_to(0));
        assert(t.len() == two_to(1) && canonical(p, t));
        let (x, y) = (children(t, 1, 0), children(t, 1, 1));
        assert(canonical(p, x)) by {
            assert(x[0] == t[0]);
        }
        assert(canonical(p, y)) by {
            assert(y[0] == t[1]);
        }
        law_bind_evaluates(p, x, rs);
        law_bind_evaluates(p, y, rs);
    }
    lemma_next_claim(p, coeff, circuits, f, rs, r, depth - 1, depth);
    lemma_cong_mod(p, line_total(n, coeff, f, r));
    assert(bound_claim(p, coeff, f, r) == line_total(n, coeff, f, r) % p);
}

/// A proof of grand products that is accepted, and that leaves a claim that is right for the leaves,
/// has sent the right outputs, but for a challenge that hides a mistake.
pub proof fn law_gkr_sound(p: int, ch: Oracle, check: Check, circuits: Seq<Seq<Seq<int>>>, depth: nat)
    requires
        p > 0,
        depth >= 1,
        circuits_multiply(p, circuits, depth),
        ({
            let b = gkr_check(p, ch, check, circuits.len(), depth);
            &&& b.check.err is None
            &&& cong(p, b.claim, layer_claim(p, b.coeff, circuits, 0, b.point))
        }),
    ensures
        ({
            let n = circuits.len();
            let b = gkr_check(p, ch, check, n, depth);
            let a = gkr_check_layers(p, ch, check, n, 0);
            let f = final_values(circuits, depth);
            ||| same_values(p, n, b.finals, f)
            ||| lucky_lines(p, n, b.coeff, b.finals, f, a.point[0])
            ||| exists|k: int|
                1 <= k < depth && #[trigger] lucky_layer(
                    p,
                    ch,
                    circuits,
                    depth,
                    gkr_check_layers(p, ch, check, n, (k - 1) as nat),
                    k as nat,
                )
        }),
{
    let n = circuits.len();
    let b = gkr_check(p, ch, check, n, depth);
    let a = gkr_check_layers(p, ch, check, n, 0);
    let f = final_values(circuits, depth);
    law_gkr_accepted(p, ch, check, n, depth);
    let lucky = exists|k: int|
        1 <= k < depth && #[trigger] lucky_layer(
            p,
            ch,
            circuits,
            depth,
            gkr_check_layers(p, ch, check, n, (k - 1) as nat),
            k as nat,
        );
    if a.check.err is Some {
        lemma_gkr_check_failed(p, ch, check, n, 0, (depth - 1) as nat);
    }
    assert(gkr_check(p, ch, check, n, 1) == a);
    law_gkr_accepted(p, ch, check, n, 1);
    assert(a.coeff =~= b.coeff);
    if !lucky {
        lemma_claims_right(p, ch, check, circuits, depth, 0);
        let r = a.point[0];
        lemma_final_claim(p, b.coeff, circuits, depth, r);
        assert(a.point == seq![r]);
    }
}

/// Without challenges that hide a mistake, the claims on all layers are right if the last one is.
proof fn lemma_claims_right(
    p: int,
    ch: Oracle,
    check: Check,
    circuits: Seq<Seq<Seq<int>>>,
    depth: nat,
    k: nat,
)
    requires
        p > 0,
        k < depth,
        circuits_multiply(p, circuits, depth),
        ({
            let b = gkr_check(p, ch, check, circuits.len(), depth);
            &&& b.check.err is None
            &&& cong(p, b.claim, layer_claim(p, b.coeff, circuits, 0, b.point))
        }),
        forall|k: int|
            1 <= k < depth ==> !#[trigger] lucky_layer(
                p,
                ch,
                circuits,
                depth,
                gkr_check_layers(p, ch, check, circuits.len(), (k - 1) as nat),
                k as nat,
            ),
    ensures
        ({
            let a = gkr_check_layers(p, ch, check, circuits.len(), k);
            cong(p, a.claim, layer_claim(p, a.coeff, circuits, depth - k - 1, a.point))
        }),
    decreases depth - k,
{
    let n = circuits.len();
    if k + 1 < depth {
        lemma_claims_right(p, ch, check, circuits, depth, k + 1);
        let a = gkr_check_layers(p, ch, check, n, k);
        let b = gkr_check_layers(p, ch, check, n, k + 1);
        if b.check.err is Some {
            lemma_gkr_check_failed(p, ch, check, n, k + 1, (depth - 1) as nat);
        }
        if a.check.err is Some {
            lemma_gkr_check_failed(p, ch, check, n, k, (depth - 1) as nat);
        }
        assert(gkr_check(p, ch, check, n, k + 1) == a);
        law_gkr_accepted(p, ch, check, n, k + 1);
        assert(b == gkr_check_layer(p, ch, a, n, k + 1));
        law_layer_accepted(p, ch, a, n, k + 1);
        assert(!lucky_layer(
            p,
            ch,
            circuits,
            depth,
            gkr_check_layers(p, ch, check, n, (k + 1 - 1) as nat),
            (k + 1) as nat,
        ));
        if !cong(p, a.claim, layer_claim(p, a.coeff, circuits, depth - k - 1, a.point)) {
            law_layer_sound(p, ch, circuits, depth, a, k + 1);
        }
    }
}

} // verus!
