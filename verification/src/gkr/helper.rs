//! Interpolation, Lagrange bases and the checks of the input layers.
use vstd::prelude::*;
use vstd::arithmetic::div_mod::lemma_add_mod_noop;
use crate::algebra::{
    cong, lemma_cong_add, lemma_cong_mod, lemma_cong_mul, lemma_cong_multiple, lemma_cong_sub,
    lemma_cong_witness, lemma_mod_small, lemma_two_to_monotone, two_to,
};
use crate::brakingbase_helper::{divided, eq_xy, evaluate_eq, lemma_poly_at_3};
use crate::error::Error;
use crate::field::{PrimeField, double, square, vals};
use crate::multilinear::{
    basis, bits_product, eq_points, eq_prod, eq_table, law_eq_bits, lemma_basis_cong,
    lemma_eq_table_high, poly_at, tensor,
};
use crate::sums::{
    dot, lemma_sum_add, lemma_sum_concat, lemma_sum_cong, lemma_sum_ext, lemma_sum_scale, lemma_sum_step, sum,
    sum_of,
};

verus! {

/// The values in reverse order.
pub fn reverse_elements<F: PrimeField>(v: &Vec<F>) -> (r: Vec<F>)
    ensures
        r@ == v@.reverse(),
{
    let mut r: Vec<F> = Vec::new();
    let n = v.len();
    let mut i: usize = 0;
    while i < n
        invariant
            i <= n,
            n == v@.len(),
            r@ == v@.reverse().take(i as int),
        decreases n - i,
    {
        r.push(v[n - 1 - i]);
        assert(v@.reverse().take(i as int + 1) =~= v@.reverse().take(i as int).push(
            v@.reverse()[i as int],
        ));
        i += 1;
    }
    assert(v@.reverse().take(n as int) =~= v@.reverse());
    r
}

pub proof fn lemma_vals_reverse<F: PrimeField>(s: Seq<F>)
    ensures
        vals(s.reverse()) == vals(s).reverse(),
{
    assert(vals(s.reverse()) =~= vals(s).reverse());
}

/// The values at all points of the hypercube of the product that is one at `r` only. The first
/// coordinate goes with the lowest bit of the index.
pub fn compute_fourier_bases<F: PrimeField>(r: Vec<F>) -> (fc_eq: Vec<F>)
    requires
        r@.len() > 0,
        two_to(r@.len()) <= usize::MAX,
    ensures
        vals(fc_eq@) == basis(F::modulus(), vals(r@).reverse()),
        fc_eq@.len() == two_to(r@.len()),
{
    let y = reverse_elements(&r);
    proof {
        lemma_vals_reverse(r@);
    }
    let fc_eq = eq_xy(&y);
    assert(vals(fc_eq@).len() == fc_eq@.len());
    fc_eq
}

/// The entry of [`compute_fourier_bases`] at an index is the product, over its bits, of the
/// coordinate for a one and its difference from one for a zero, the first coordinate going with the
/// lowest bit; the table is that of [`eq_xy`](crate::brakingbase_helper::eq_xy) for the reversed
/// point.
pub proof fn law_fourier_bases(p: int, r: Seq<int>)
    requires
        r.len() > 0,
    ensures
        basis(p, r.reverse()).len() == two_to(r.len()),
        basis(p, r.reverse()) == tensor(p, r.reverse()),
        forall|i: int|
            0 <= i < two_to(r.len()) ==> #[trigger] basis(p, r.reverse())[i] == bits_product(i, r, 0)
                % p,
{
    assert(r.reverse().reverse() =~= r);
    assert forall|i: int| 0 <= i < two_to(r.len()) implies #[trigger] basis(p, r.reverse())[i]
        == bits_product(i, r, 0) % p by {
        law_eq_bits(i, r.reverse());
    }
}

/// The table of [`eq_xy`](crate::brakingbase_helper::eq_xy) for a point with coordinates: every entry
/// is that of [`eq`](crate::brakingbase_helper::eq) for its index, which is the product, over the bits
/// of the index, of the coordinate for a one and its difference from one for a zero, the lowest bit
/// going with the last coordinate; and the entries add up to one.
#[verifier::spinoff_prover]
pub proof fn law_eq_xy(p: int, y: Seq<int>)
    requires
        p > 1,
        y.len() > 0,
    ensures
        tensor(p, y).len() == two_to(y.len()),
        forall|i: int|
            0 <= i < two_to(y.len()) ==> #[trigger] tensor(p, y)[i] == eq_prod(i, y) % p && eq_prod(
                i,
                y,
            ) == bits_product(i, y.reverse(), 0),
        sum(tensor(p, y)) % p == 1,
{
    assert(tensor(p, y) == basis(p, y));
    assert(sum(tensor(p, y)) % p == 1) by {
        law_eq_sum(y);
        lemma_basis_cong(p, y);
        lemma_sum_cong(p, basis(p, y), eq_table(y));
        lemma_mod_small(p, 1);
    }
    assert forall|i: int| 0 <= i < two_to(y.len()) implies #[trigger] tensor(p, y)[i] == eq_prod(i, y) % p
        && eq_prod(i, y) == bits_product(i, y.reverse(), 0) by {
        assert(tensor(p, y)[i] == basis(p, y)[i]);
        law_eq_bits(i, y);
    }
}

/// `poly_at` for the coefficients of a cubic.
pub proof fn lemma_poly_at_4(c: Seq<int>, x: int)
    requires
        c.len() == 4,
    ensures
        poly_at(c, x) == c[0] + x * c[1] + (x * x) * c[2] + (x * x * x) * c[3],
{
    lemma_poly_at_3(c.skip(1), x);
    let (a, b, d) = (c[1], c[2], c[3]);
    assert(x * (a + x * b + (x * x) * d) == x * a + (x * x) * b + (x * x * x) * d) by (nonlinear_arith);
}

/// A cubic at the points at which the protocols evaluate one.
pub proof fn lemma_cubic_values(c: Seq<int>)
    requires
        c.len() == 4,
    ensures
        poly_at(c, 0) == c[0],
        poly_at(c, 1) == c[0] + c[1] + c[2] + c[3],
        poly_at(c, -1) == c[0] - c[1] + c[2] - c[3],
        poly_at(c, 2) == c[0] + 2 * c[1] + 4 * c[2] + 8 * c[3],
{
    lemma_poly_at_4(c, 0);
    lemma_poly_at_4(c, 1);
    lemma_poly_at_4(c, -1);
    lemma_poly_at_4(c, 2);
    let (c1, c2, c3) = (c[1], c[2], c[3]);
    assert(0 * c1 == 0 && (0 * 0) * c2 == 0 && (0 * 0 * 0) * c3 == 0) by (nonlinear_arith);
    assert(1 * c1 == c1 && (1 * 1) * c2 == c2 && (1 * 1 * 1) * c3 == c3) by (nonlinear_arith);
    assert((-1) * c1 == -c1 && ((-1) * (-1)) * c2 == c2 && ((-1) * (-1) * (-1)) * c3 == -c3)
        by (nonlinear_arith);
    assert((2 * 2) * c2 == 4 * c2 && (2 * 2 * 2) * c3 == 8 * c3) by (nonlinear_arith);
}

/// Replaces the values of a cubic at 0, 1, -1 and 2 by its coefficients, the constant one first.
pub fn len_4_interpolate<F: PrimeField>(evaluations: &mut [F; 4])
    ensures
        ({
            let c = vals(final(evaluations)@);
            &&& poly_at(c, 0) % F::modulus() == old(evaluations)@[0].value()
            &&& poly_at(c, 1) % F::modulus() == old(evaluations)@[1].value()
            &&& poly_at(c, -1) % F::modulus() == old(evaluations)@[2].value()
            &&& poly_at(c, 2) % F::modulus() == old(evaluations)@[3].value()
        }),
{
    let ghost p = F::modulus();
    let e0 = evaluations[0];
    let e1 = evaluations[1];
    let em = evaluations[2];
    let e2 = evaluations[3];
    let n0 = e1.add(em).sub(double(e0));
    let t0 = divided(n0, 2);
    let t1 = e1.sub(em).add(e0).add(double(double(t0)));
    let t2 = divided(e2.sub(t1), 6);
    let c1 = e1.sub(e0.add(t0).add(t2));
    *evaluations = [e0, c1, t0, t2];
    proof {
        F::lemma_modulus();
        let (a0, a1, am, a2) = (e0.value(), e1.value(), em.value(), e2.value());
        let (v0, v2) = (t0.value(), t2.value());
        e0.lemma_value();
        e1.lemma_value();
        em.lemma_value();
        e2.lemma_value();
        lemma_cong_mod(p, a1 + am);
        lemma_cong_mod(p, 2 * a0);
        lemma_cong_sub(p, (a1 + am) % p, a1 + am, (2 * a0) % p, 2 * a0);
        lemma_cong_mod(p, (a1 + am) % p - (2 * a0) % p);
        assert(cong(p, 2 * v0, a1 + am - 2 * a0));
        lemma_cong_mod(p, a1 - am);
        lemma_cong_add(p, (a1 - am) % p, a1 - am, a0, a0);
        let w = (a1 - am) % p + a0;
        lemma_cong_mod(p, w);
        lemma_cong_mod(p, 2 * v0);
        lemma_cong_mul(p, 2, 2, (2 * v0) % p, 2 * v0);
        lemma_cong_mod(p, 2 * ((2 * v0) % p));
        lemma_cong_add(p, w % p, a1 - am + a0, (2 * ((2 * v0) % p)) % p, 4 * v0);
        lemma_cong_mod(p, w % p + (2 * ((2 * v0) % p)) % p);
        assert(cong(p, t1.value(), a1 - am + a0 + 4 * v0));
        lemma_cong_sub(p, a2, a2, t1.value(), a1 - am + a0 + 4 * v0);
        lemma_cong_mod(p, a2 - t1.value());
        assert(cong(p, 6 * v2, a2 - (a1 - am + a0 + 4 * v0)));
        lemma_cong_mod(p, a0 + v0);
        lemma_cong_add(p, (a0 + v0) % p, a0 + v0, v2, v2);
        let u = (a0 + v0) % p + v2;
        lemma_cong_mod(p, u);
        lemma_cong_sub(p, a1, a1, u % p, a0 + v0 + v2);
        lemma_cong_mod(p, a1 - u % p);
        assert(cong(p, c1.value(), a1 - (a0 + v0 + v2)));
        lemma_cubic_from_values(p, a0, a1, am, a2, c1.value(), v0, v2);
        assert(vals(evaluations@) =~= seq![a0, c1.value(), v0, v2]);
        lemma_mod_small(p, a0);
        lemma_mod_small(p, a1);
        lemma_mod_small(p, am);
        lemma_mod_small(p, a2);
    }
}

proof fn lemma_cubic_from_values(
    p: int,
    a0: int,
    a1: int,
    am: int,
    a2: int,
    c1: int,
    c2: int,
    c3: int,
)
    requires
        p > 0,
        cong(p, 2 * c2, a1 + am - 2 * a0),
        cong(p, 6 * c3, a2 - (a1 - am + a0 + 4 * c2)),
        cong(p, c1, a1 - (a0 + c2 + c3)),
    ensures
        ({
            let c = seq![a0, c1, c2, c3];
            &&& cong(p, poly_at(c, 0), a0)
            &&& cong(p, poly_at(c, 1), a1)
            &&& cong(p, poly_at(c, -1), am)
            &&& cong(p, poly_at(c, 2), a2)
        }),
{
    let c = seq![a0, c1, c2, c3];
    lemma_cubic_values(c);
    let k2 = lemma_cong_witness(p, 2 * c2, a1 + am - 2 * a0);
    let k3 = lemma_cong_witness(p, 6 * c3, a2 - (a1 - am + a0 + 4 * c2));
    let k1 = lemma_cong_witness(p, c1, a1 - (a0 + c2 + c3));
    assert(poly_at(c, 1) == a1 + k1 * p);
    lemma_cong_multiple(p, poly_at(c, 1), a1, k1);
    assert(poly_at(c, -1) == am + (k2 - k1) * p) by (nonlinear_arith)
        requires
            poly_at(c, -1) == a0 - c1 + c2 - c3,
            c1 == a1 - (a0 + c2 + c3) + k1 * p,
            2 * c2 == a1 + am - 2 * a0 + k2 * p,
    ;
    lemma_cong_multiple(p, poly_at(c, -1), am, k2 - k1);
    assert(poly_at(c, 2) == a2 + (2 * k1 + k3 - k2) * p) by (nonlinear_arith)
        requires
            poly_at(c, 2) == a0 + 2 * c1 + 4 * c2 + 8 * c3,
            c1 == a1 - (a0 + c2 + c3) + k1 * p,
            2 * c2 == a1 + am - 2 * a0 + k2 * p,
            6 * c3 == a2 - (a1 - am + a0 + 4 * c2) + k3 * p,
    ;
    lemma_cong_multiple(p, poly_at(c, 2), a2, 2 * k1 + k3 - k2);
}

/// The sum of the coordinates, weighted with powers of two.
pub open spec fn weighted_bits(r: Seq<int>) -> int {
    sum_of(r.len(), |i: int| two_to(i as nat) * r[i])
}

/// Evaluates the polynomial whose value at an index is the index. The first coordinate goes with
/// the lowest bit.
pub fn evaluate_indicies<F: PrimeField>(random_values: &Vec<F>) -> (r: F)
    requires
        random_values@.len() <= 64,
    ensures
        r.value() == weighted_bits(vals(random_values@)) % F::modulus(),
{
    let ghost p = F::modulus();
    let ghost v = vals(random_values@);
    let ghost f = |i: int| two_to(i as nat) * v[i];
    let n = random_values.len();
    let mut acc = F::zero();
    let mut weight: u64 = 1;
    let mut i: usize = 0;
    proof {
        F::lemma_modulus();
        lemma_mod_small(p, 0);
        lemma_sum_step(0, f);
        crate::bits::lemma_two_to_word();
    }
    while i < n
        invariant
            i <= n,
            n == random_values@.len(),
            n <= 64,
            p == F::modulus(),
            p > 6,
            v == vals(random_values@),
            f == (|i: int| two_to(i as nat) * v[i]),
            two_to(64) == 0x1_0000_0000_0000_0000,
            i < n ==> weight == two_to(i as nat),
            acc.value() == sum_of(i as nat, f) % p,
        decreases n - i,
    {
        let w = F::from_u64(weight);
        let t = w.mul(random_values[i]);
        let next = acc.add(t);
        proof {
            let x = v[i as int];
            lemma_cong_mod(p, weight as int);
            lemma_cong_mul(p, w.value(), weight as int, x, x);
            lemma_sum_step(i as nat, f);
            lemma_add_mod_noop(sum_of(i as nat, f), f(i as int), p);
            assert(two_to((i + 1) as nat) == 2 * two_to(i as nat));
            if i + 1 < n {
                lemma_two_to_monotone((i + 2) as nat, 64);
                assert(two_to((i + 2) as nat) == 2 * two_to((i + 1) as nat));
            }
        }
        acc = next;
        i += 1;
        if i < n {
            weight = weight * 2;
        }
    }
    acc
}

/// The products of a point, over all indices, add up to one.
pub proof fn law_eq_sum(y: Seq<int>)
    ensures
        sum(eq_table(y)) == 1,
    decreases y.len(),
{
    if y.len() == 0 {
        let s = eq_table(y);
        assert(s.drop_last() =~= Seq::empty());
        assert(sum(s) == sum(s.drop_last()) + s.last());
    } else {
        lemma_eq_table_high(y);
        let z = eq_table(y.skip(1));
        let lo = Seq::new(z.len(), |i: int| (1 - y[0]) * z[i]);
        let hi = Seq::new(z.len(), |i: int| y[0] * z[i]);
        lemma_sum_concat(lo, hi);
        lemma_sum_scale(1 - y[0], z);
        lemma_sum_scale(y[0], z);
        law_eq_sum(y.skip(1));
    }
}

/// The table with the index of every entry.
pub open spec fn index_table(n: nat) -> Seq<int> {
    Seq::new(n, |i: int| i)
}

/// The polynomial of the indices, at a point whose first coordinate goes with the highest bit.
pub proof fn law_index_polynomial(y: Seq<int>)
    ensures
        dot(index_table(two_to(y.len())), eq_table(y)) == weighted_bits(y.reverse()),
    decreases y.len(),
{
    let n = y.len();
    let w = weighted_bits(y.reverse());
    if n == 0 {
        let s = Seq::new(1, |i: int| index_table(1)[i] * eq_table(y)[i]);
        assert(s.drop_last() =~= Seq::empty());
        assert(sum(s) == sum(s.drop_last()) + s.last());
        assert(s.last() == 0 * 1);
        lemma_sum_step(0, |i: int| two_to(i as nat) * y.reverse()[i]);
    } else {
        let tail = y.skip(1);
        law_index_polynomial(tail);
        lemma_eq_table_high(y);
        law_eq_sum(tail);
        let z = eq_table(tail);
        let h = z.len() as int;
        let y0 = y[0];
        let d = Seq::new(z.len(), |i: int| i * z[i]);
        let lo = Seq::new(z.len(), |i: int| (1 - y0) * d[i]);
        let hi1 = Seq::new(z.len(), |i: int| y0 * d[i]);
        let hi2 = Seq::new(z.len(), |i: int| (h * y0) * z[i]);
        let hi = Seq::new(z.len(), |i: int| hi1[i] + hi2[i]);
        let all = Seq::new(2 * z.len(), |i: int| index_table(2 * z.len())[i] * eq_table(y)[i]);
        assert forall|i: int| 0 <= i < 2 * z.len() implies all[i] == (lo + hi)[i] by {
            if i < h {
                assert(i * ((1 - y0) * z[i]) == (1 - y0) * (i * z[i])) by (nonlinear_arith);
            } else {
                let j = i - h;
                let q = z[j];
                assert((j + h) * (y0 * q) == y0 * (j * q) + (h * y0) * q) by (nonlinear_arith);
            }
        }
        assert(all =~= lo + hi);
        lemma_sum_concat(lo, hi);
        lemma_sum_add(hi1, hi2);
        assert(hi =~= Seq::new(hi1.len(), |i: int| hi1[i] + hi2[i]));
        lemma_sum_scale(1 - y0, d);
        lemma_sum_scale(y0, d);
        lemma_sum_scale(h * y0, z);
        assert((1 - y0) * sum(d) + y0 * sum(d) == sum(d)) by (nonlinear_arith);
        assert((h * y0) * 1 == h * y0);
        assert(sum(all) == sum(d) + h * y0);
        assert(dot(index_table(two_to(n)), eq_table(y)) == sum(all));
        assert(dot(index_table(two_to(tail.len())), eq_table(tail)) == sum(d)) by {
            assert(d =~= Seq::new(z.len(), |i: int| index_table(z.len())[i] * z[i]));
        }
        let r = y.reverse();
        let f = |i: int| two_to(i as nat) * r[i];
        let g = |i: int| two_to(i as nat) * tail.reverse()[i];
        lemma_sum_step((n - 1) as nat, f);
        lemma_sum_ext((n - 1) as nat, f, g);
        assert(r[n - 1] == y0);
    }
}

/// The weighted sum of the input layers of the first batch of a memory check: fingerprints of a
/// table of indices and values, without and with the times of the last reads, for rows and then
/// for columns.
pub open spec fn first_input_layer(
    gamma: int,
    tau: int,
    indices: int,
    row_value: int,
    col_value: int,
    final_row: int,
    final_col: int,
    combiners: Seq<int>,
) -> int {
    let g2 = gamma * gamma;
    let e0 = indices + gamma * row_value - tau;
    let e2 = indices + gamma * col_value - tau;
    combiners[0] * e0 + combiners[1] * (e0 + g2 * final_row) + combiners[2] * e2 + combiners[3] * (e2
        + g2 * final_col)
}

/// `c0 * e0 + c1 * e1 + c2 * e2 + c3 * e3`.
fn weigh_four<F: PrimeField>(combiners: &Vec<F>, e0: F, e1: F, e2: F, e3: F) -> (r: F)
    requires
        combiners@.len() >= 4,
    ensures
        ({
            let c = vals(combiners@);
            r.value() == (c[0] * e0.value() + c[1] * e1.value() + c[2] * e2.value() + c[3]
                * e3.value()) % F::modulus()
        }),
{
    let m0 = combiners[0].mul(e0);
    let m1 = combiners[1].mul(e1);
    let m2 = combiners[2].mul(e2);
    let m3 = combiners[3].mul(e3);
    let s1 = m0.add(m1);
    let s2 = s1.add(m2);
    let s3 = s2.add(m3);
    proof {
        F::lemma_modulus();
        let p = F::modulus();
        let c = vals(combiners@);
        let (x0, x1, x2, x3) = (
            c[0] * e0.value(),
            c[1] * e1.value(),
            c[2] * e2.value(),
            c[3] * e3.value(),
        );
        lemma_add_mod_noop(x0, x1, p);
        lemma_add_mod_noop(x0 + x1, x2, p);
        lemma_add_mod_noop(x0 + x1 + x2, x3, p);
    }
    s3
}

/// `x + gamma * v - tau`.
pub(crate) fn fingerprint_base<F: PrimeField>(gamma_tau: &Vec<F>, x: F, v: F) -> (r: F)
    requires
        gamma_tau@.len() >= 2,
    ensures
        r.value() == (x.value() + gamma_tau@[0].value() * v.value() - gamma_tau@[1].value())
            % F::modulus(),
{
    let m = gamma_tau[0].mul(v);
    let s = x.add(m);
    let r = s.sub(gamma_tau[1]);
    proof {
        F::lemma_modulus();
        let p = F::modulus();
        let (xv, gv, tv) = (
            x.value(),
            gamma_tau@[0].value() * v.value(),
            gamma_tau@[1].value(),
        );
        lemma_cong_mod(p, gv);
        lemma_cong_add(p, xv, xv, m.value(), gv);
        lemma_cong_mod(p, xv + m.value());
        lemma_cong_sub(p, s.value(), xv + gv, tv, tv);
    }
    r
}

/// `x + gamma^2 * t`.
pub(crate) fn fingerprint_time<F: PrimeField>(gamma_tau: &Vec<F>, x: F, t: F) -> (r: F)
    requires
        gamma_tau@.len() >= 2,
    ensures
        r.value() == (x.value() + (gamma_tau@[0].value() * gamma_tau@[0].value()) * t.value())
            % F::modulus(),
{
    let g2 = square(gamma_tau[0]);
    let m = g2.mul(t);
    let r = x.add(m);
    proof {
        F::lemma_modulus();
        let p = F::modulus();
        let (xv, gg, tv) = (
            x.value(),
            gamma_tau@[0].value() * gamma_tau@[0].value(),
            t.value(),
        );
        lemma_cong_mod(p, gg);
        lemma_cong_mul(p, g2.value(), gg, tv, tv);
        lemma_cong_mod(p, g2.value() * tv);
        lemma_cong_add(p, xv, xv, m.value(), gg * tv);
    }
    r
}

/// Checks the input layers of the tables of a memory check, one for rows and one for columns,
/// each before the first and after the last read.
pub fn input_layer_check1<F: PrimeField>(
    gamma_tau: &Vec<F>,
    r_x: &Vec<F>,
    r_y: &Vec<F>,
    combiners: &Vec<F>,
    random_points: &Vec<F>,
    expected_eval: F,
    n_circuits: usize,
    final_ts_eval_row: F,
    final_ts_eval_col: F,
) -> (res: Result<(), Error>)
    requires
        gamma_tau@.len() >= 2,
        n_circuits >= 4,
        combiners@.len() >= n_circuits,
        r_x@.len() == random_points@.len(),
        r_y@.len() == random_points@.len(),
        random_points@.len() <= 64,
    ensures
        res == (if cong(
            F::modulus(),
            expected_eval.value(),
            first_input_layer(
                gamma_tau@[0].value(),
                gamma_tau@[1].value(),
                weighted_bits(vals(random_points@).reverse()),
                eq_points(vals(r_x@), vals(random_points@)),
                eq_points(vals(r_y@), vals(random_points@)),
                final_ts_eval_row.value(),
                final_ts_eval_col.value(),
                vals(combiners@),
            ),
        ) {
            Ok::<(), Error>(())
        } else {
            Err(Error::InputLayer)
        }),
{
    let r_x_eval = evaluate_eq(r_x, random_points);
    let r_y_eval = evaluate_eq(r_y, random_points);
    let reversed = reverse_elements(random_points);
    proof {
        lemma_vals_reverse(random_points@);
    }
    let indices_eval = evaluate_indicies(&reversed);
    let e0 = fingerprint_base(gamma_tau, indices_eval, r_x_eval);
    let e1 = fingerprint_time(gamma_tau, e0, final_ts_eval_row);
    let e2 = fingerprint_base(gamma_tau, indices_eval, r_y_eval);
    let e3 = fingerprint_time(gamma_tau, e2, final_ts_eval_col);
    let claimed = weigh_four(combiners, e0, e1, e2, e3);
    proof {
        F::lemma_modulus();
        let p = F::modulus();
        let (g, t) = (gamma_tau@[0].value(), gamma_tau@[1].value());
        let i = weighted_bits(vals(random_points@).reverse());
        let x = eq_points(vals(r_x@), vals(random_points@));
        let y = eq_points(vals(r_y@), vals(random_points@));
        let (fr, fc) = (final_ts_eval_row.value(), final_ts_eval_col.value());
        let c = vals(combiners@);
        lemma_fingerprint_cong(p, g, t, indices_eval.value(), i, r_x_eval.value(), x);
        lemma_fingerprint_cong(p, g, t, indices_eval.value(), i, r_y_eval.value(), y);
        let (b0, b2) = (i + g * x - t, i + g * y - t);
        lemma_cong_mod(p, indices_eval.value() + g * r_x_eval.value() - t);
        lemma_cong_mod(p, indices_eval.value() + g * r_y_eval.value() - t);
        lemma_cong_add(p, e0.value(), b0, (g * g) * fr, (g * g) * fr);
        lemma_cong_mod(p, e0.value() + (g * g) * fr);
        lemma_cong_add(p, e2.value(), b2, (g * g) * fc, (g * g) * fc);
        lemma_cong_mod(p, e2.value() + (g * g) * fc);
        lemma_weigh_cong(
            p,
            c,
            e0.value(),
            b0,
            e1.value(),
            b0 + (g * g) * fr,
            e2.value(),
            b2,
            e3.value(),
            b2 + (g * g) * fc,
        );
        expected_eval.lemma_value();
        lemma_mod_small(p, expected_eval.value());
    }
    if expected_eval.equals(claimed) {
        Ok(())
    } else {
        Err(Error::InputLayer)
    }
}

proof fn lemma_fingerprint_cong(p: int, g: int, t: int, i: int, i2: int, x: int, x2: int)
    requires
        p > 0,
        i == i2 % p,
        x == x2 % p,
    ensures
        cong(p, i + g * x - t, i2 + g * x2 - t),
{
    lemma_cong_mod(p, i2);
    lemma_cong_mod(p, x2);
    lemma_cong_mul(p, g, g, x, x2);
    lemma_cong_add(p, i, i2, g * x, g * x2);
    lemma_cong_sub(p, i + g * x, i2 + g * x2, t, t);
}

pub proof fn lemma_weigh_cong(
    p: int,
    c: Seq<int>,
    a0: int,
    b0: int,
    a1: int,
    b1: int,
    a2: int,
    b2: int,
    a3: int,
    b3: int,
)
    requires
        p > 0,
        cong(p, a0, b0),
        cong(p, a1, b1),
        cong(p, a2, b2),
        cong(p, a3, b3),
    ensures
        cong(
            p,
            c[0] * a0 + c[1] * a1 + c[2] * a2 + c[3] * a3,
            c[0] * b0 + c[1] * b1 + c[2] * b2 + c[3] * b3,
        ),
{
    lemma_cong_mul(p, c[0], c[0], a0, b0);
    lemma_cong_mul(p, c[1], c[1], a1, b1);
    lemma_cong_mul(p, c[2], c[2], a2, b2);
    lemma_cong_mul(p, c[3], c[3], a3, b3);
    lemma_cong_add(p, c[0] * a0, c[0] * b0, c[1] * a1, c[1] * b1);
    lemma_cong_add(p, c[0] * a0 + c[1] * a1, c[0] * b0 + c[1] * b1, c[2] * a2, c[2] * b2);
    lemma_cong_add(
        p,
        c[0] * a0 + c[1] * a1 + c[2] * a2,
        c[0] * b0 + c[1] * b1 + c[2] * b2,
        c[3] * a3,
        c[3] * b3,
    );
}

/// The weighted sum of the input layers of the second batch of a memory check: what the reads
/// put back and what they take out, for rows and then for columns.
pub open spec fn second_input_layer(gamma: int, tau: int, e: Seq<int>, combiners: Seq<int>) -> int {
    let g2 = gamma * gamma;
    let r = e[2] + gamma * e[0] + g2 * e[4] - tau;
    let c = e[3] + gamma * e[1] + g2 * e[5] - tau;
    combiners[0] * (r + g2) + combiners[1] * r + combiners[2] * (c + g2) + combiners[3] * c
}

/// Checks the input layers of the reads of a memory check. The evaluations are those of the
/// values of rows and columns, of their addresses, and of their times, in pairs.
pub fn input_layer_check2<F: PrimeField>(
    gamma_tau: &Vec<F>,
    expected_eval: F,
    combiners: &Vec<F>,
    n_circuits: usize,
    evaluations: &Vec<F>,
) -> (res: Result<(), Error>)
    requires
        gamma_tau@.len() >= 2,
        n_circuits >= 4,
        combiners@.len() >= n_circuits,
        evaluations@.len() >= 6,
    ensures
        res == (if cong(
            F::modulus(),
            expected_eval.value(),
            second_input_layer(
                gamma_tau@[0].value(),
                gamma_tau@[1].value(),
                vals(evaluations@),
                vals(combiners@),
            ),
        ) {
            Ok::<(), Error>(())
        } else {
            Err(Error::InputLayer)
        }),
{
    let r0 = fingerprint_base(gamma_tau, evaluations[2], evaluations[0]);
    let e1 = fingerprint_time(gamma_tau, r0, evaluations[4]);
    let e0 = fingerprint_time(gamma_tau, e1, F::one());
    let c0 = fingerprint_base(gamma_tau, evaluations[3], evaluations[1]);
    let e3 = fingerprint_time(gamma_tau, c0, evaluations[5]);
    let e2 = fingerprint_time(gamma_tau, e3, F::one());
    let claimed = weigh_four(combiners, e0, e1, e2, e3);
    proof {
        F::lemma_modulus();
        let p = F::modulus();
        let (g, t) = (gamma_tau@[0].value(), gamma_tau@[1].value());
        let g2 = g * g;
        let e = vals(evaluations@);
        let r = e[2] + g * e[0] + g2 * e[4] - t;
        let c = e[3] + g * e[1] + g2 * e[5] - t;
        lemma_cong_mod(p, e[2] + g * e[0] - t);
        lemma_cong_add(p, r0.value(), e[2] + g * e[0] - t, g2 * e[4], g2 * e[4]);
        lemma_cong_mod(p, r0.value() + g2 * e[4]);
        assert(cong(p, e1.value(), r));
        lemma_cong_mod(p, e[3] + g * e[1] - t);
        lemma_cong_add(p, c0.value(), e[3] + g * e[1] - t, g2 * e[5], g2 * e[5]);
        lemma_cong_mod(p, c0.value() + g2 * e[5]);
        assert(cong(p, e3.value(), c));
        assert(g2 * 1 == g2);
        lemma_cong_add(p, e1.value(), r, g2, g2);
        lemma_cong_mod(p, e1.value() + g2);
        lemma_cong_add(p, e3.value(), c, g2, g2);
        lemma_cong_mod(p, e3.value() + g2);
        lemma_weigh_cong(
            p,
            vals(combiners@),
            e0.value(),
            r + g2,
            e1.value(),
            r,
            e2.value(),
            c + g2,
            e3.value(),
            c,
        );
        expected_eval.lemma_value();
        lemma_mod_small(p, expected_eval.value());
    }
    if expected_eval.equals(claimed) {
        Ok(())
    } else {
        Err(Error::InputLayer)
    }
}

} // verus!
