//! Evaluation of multilinear and of univariate polynomials.
use vstd::prelude::*;
use vstd::arithmetic::div_mod::{lemma_add_mod_noop, lemma_mul_mod_noop};
use crate::algebra::{
    canonical, cong, lemma_cong_add, lemma_cong_mod, lemma_cong_mul, lemma_cong_multiple,
    lemma_cong_sub, lemma_cong_witness, lemma_halve, lemma_mod_canonical, lemma_mod_small,
    lemma_two_to_monotone, two_to,
};
use crate::bits::{is_power_of_two, log2, log2_of, pow_two};
use crate::field::{PrimeField, double, lemma_vals_canonical, vals};
use crate::multilinear::{
    basis, eq_bit, eq_pair, eq_points, eq_prod, fold, line, mle, poly_at, tensor,
};
use crate::sums::{dot, sum};

verus! {

/// The value at `x` of the line from `a` at 0 to `b` at 1.
pub fn line_at<F: PrimeField>(a: F, b: F, x: F) -> (r: F)
    ensures
        r.value() == (a.value() + (b.value() - a.value()) * x.value()) % F::modulus(),
{
    let d = b.sub(a);
    let m = d.mul(x);
    let r = a.add(m);
    proof {
        F::lemma_modulus();
        let p = F::modulus();
        let (av, bv, xv) = (a.value(), b.value(), x.value());
        lemma_cong_mod(p, bv - av);
        lemma_cong_mul(p, d.value(), bv - av, xv, xv);
        lemma_cong_mod(p, d.value() * xv);
        lemma_cong_add(p, av, av, m.value(), (bv - av) * xv);
    }
    r
}

/// The inner product of `a` and `b`, over the length of the shorter of the two.
pub fn inner_product<F: PrimeField>(a: &Vec<F>, b: &Vec<F>) -> (r: F)
    ensures
        r.value() == dot(vals(a@), vals(b@)) % F::modulus(),
{
    let n: usize = if a.len() <= b.len() { a.len() } else { b.len() };
    let ghost p = F::modulus();
    let ghost s = Seq::new(n as nat, |i: int| vals(a@)[i] * vals(b@)[i]);
    let mut acc = F::zero();
    let mut i: usize = 0;
    proof {
        F::lemma_modulus();
        lemma_mod_small(p, 0);
        assert(s.take(0) =~= Seq::empty());
    }
    while i < n
        invariant
            i <= n <= a.len(),
            n <= b.len(),
            p == F::modulus(),
            p > 0,
            s == Seq::new(n as nat, |i: int| vals(a@)[i] * vals(b@)[i]),
            acc.value() == sum(s.take(i as int)) % p,
        decreases n - i,
    {
        let m = a[i].mul(b[i]);
        let next = acc.add(m);
        proof {
            assert(s.take(i as int + 1).drop_last() =~= s.take(i as int));
            assert(s.take(i as int + 1).last() == s[i as int]);
            lemma_add_mod_noop(sum(s.take(i as int)), s[i as int], p);
        }
        acc = next;
        i += 1;
    }
    assert(s.take(n as int) =~= s);
    acc
}

/// Evaluates the multilinear polynomial with the values `coeffs` at `point`. The first
/// coordinate goes with the highest bit of the index. Without coordinates the result is zero.
pub fn evaluate_poly<F: PrimeField>(coeffs: &Vec<F>, point: &Vec<F>) -> (r: F)
    requires
        coeffs@.len() == two_to(point@.len()),
    ensures
        r.value() == dot(vals(coeffs@), tensor(F::modulus(), vals(point@))) % F::modulus(),
        point@.len() > 0 ==> r.value() == mle(F::modulus(), vals(coeffs@), vals(point@)),
{
    let n = coeffs.len();
    proof {
        assert(n == two_to(point@.len()));
        assert(two_to(0) == 1);
        assert(is_power_of_two(1));
        assert(log2_of(1) == 0);
        assert(vals(point@).take(point@.len() as int) =~= vals(point@));
    }
    let tensor_point = point_to_tensor(1, point).1;
    inner_product(coeffs, &tensor_point)
}

/// The tensor of the last `log2(num_rows)` coordinates of `point`, and that of the others.
pub fn point_to_tensor<F: PrimeField>(num_rows: usize, point: &Vec<F>) -> (r: (Vec<F>, Vec<F>))
    requires
        num_rows >= 1,
        is_power_of_two(num_rows as nat),
        log2_of(num_rows as nat) <= point@.len(),
        two_to((point@.len() - log2_of(num_rows as nat)) as nat) <= usize::MAX,
    ensures
        ({
            let k = point@.len() - log2_of(num_rows as nat);
            &&& vals(r.0@) == tensor(F::modulus(), vals(point@).skip(k))
            &&& vals(r.1@) == tensor(F::modulus(), vals(point@).take(k))
        }),
{
    let k = point.len() - log2(num_rows);
    let hi = sub_vector(point, 0, k);
    let lo = sub_vector(point, k, point.len());
    proof {
        assert(vals(hi@) =~= vals(point@).take(k as int));
        assert(vals(lo@) =~= vals(point@).skip(k as int));
    }
    (eq_xy(&lo), eq_xy(&hi))
}

/// The entries of `v` from `from` to before `to`.
pub fn sub_vector<F: PrimeField>(v: &Vec<F>, from: usize, to: usize) -> (r: Vec<F>)
    requires
        from <= to <= v@.len(),
    ensures
        r@ == v@.subrange(from as int, to as int),
{
    let mut r: Vec<F> = Vec::new();
    let mut i: usize = from;
    while i < to
        invariant
            from <= i <= to <= v@.len(),
            r@ == v@.subrange(from as int, i as int),
        decreases to - i,
    {
        r.push(v[i]);
        assert(v@.subrange(from as int, i as int + 1) =~= v@.subrange(from as int, i as int).push(
            v@[i as int],
        ));
        i += 1;
    }
    r
}

/// The inner product of `coeffs` with the tensor of the coordinates of `point` after the first
/// `skip`, over the length of the shorter of the two.
pub fn partial_evaluate_poly<F: PrimeField>(
    coeffs: &Vec<F>,
    point: &Vec<F>,
    skip: usize,
) -> (r: F)
    requires
        skip <= point@.len(),
        two_to((point@.len() - skip) as nat) <= usize::MAX,
        two_to(skip as nat) <= usize::MAX,
    ensures
        r.value() == dot(
            vals(coeffs@),
            tensor(F::modulus(), vals(point@).skip(skip as int)),
        ) % F::modulus(),
{
    let num_rows = pow_two(point.len() - skip);
    proof {
        crate::bits::lemma_log2_two_to((point@.len() - skip) as nat);
    }
    let tensor_point = point_to_tensor(num_rows, point).0;
    inner_product(coeffs, &tensor_point)
}

/// The factor of a bit at a coordinate, as both `eq` and `eq_xy` compute it.
proof fn lemma_eq_step(p: int, e: int, b: int, y: int)
    requires
        p > 0,
        b == 0 || b == 1,
    ensures
        cong(p, (e % p) * (b * y + (1 - b) * (1 - y)), e * eq_bit(b, y)),
{
    lemma_cong_mod(p, e);
    assert(b * y + (1 - b) * (1 - y) == eq_bit(b, y)) by {
        if b == 1 {
            assert(b * y + (1 - b) * (1 - y) == y) by (nonlinear_arith)
                requires
                    b == 1,
            ;
        } else {
            assert(b * y + (1 - b) * (1 - y) == 1 - y) by (nonlinear_arith)
                requires
                    b == 0,
            ;
        }
    }
    lemma_cong_mul(p, e % p, e, eq_bit(b, y), eq_bit(b, y));
}

/// `x * y + (1 - x) * (1 - y)`.
pub fn eq_factor<F: PrimeField>(x: F, y: F) -> (r: F)
    ensures
        r.value() == eq_pair(x.value(), y.value()) % F::modulus(),
{
    let a = x.mul(y);
    let u = F::one().sub(x);
    let v = F::one().sub(y);
    let b = u.mul(v);
    let r = a.add(b);
    proof {
        F::lemma_modulus();
        let p = F::modulus();
        let (xv, yv) = (x.value(), y.value());
        lemma_mul_mod_noop(1 - xv, 1 - yv, p);
        lemma_add_mod_noop(xv * yv, (1 - xv) * (1 - yv), p);
    }
    r
}

/// The product, over the coordinates of `point`, of the coordinate or of one minus it, as the
/// bit of `idx` is one or zero. The last coordinate goes with the lowest bit.
pub fn eq<F: PrimeField>(idx: usize, point: &Vec<F>) -> (r: F)
    ensures
        r.value() == eq_prod(idx as int, vals(point@)) % F::modulus(),
{
    let ghost p = F::modulus();
    let ghost y = vals(point@);
    let n = point.len();
    let mut idx: usize = idx;
    let mut res = F::one();
    let mut i: usize = 0;
    let ghost whole = eq_prod(idx as int, y);
    proof {
        F::lemma_modulus();
        lemma_mod_small(p, 1);
        assert(y.take(n as int) =~= y);
        assert(1 * whole == whole);
        lemma_vals_canonical(point@);
    }
    while i < n
        invariant
            i <= n,
            n == point@.len(),
            p == F::modulus(),
            p > 6,
            y == vals(point@),
            canonical(p, y),
            cong(p, res.value() * eq_prod(idx as int, y.take(n - i)), whole),
            0 <= res.value() < p,
        decreases n - i,
    {
        let bit: usize = idx % 2;
        let f_bit = F::from_u64(bit as u64);
        let f = eq_factor(f_bit, point[n - i - 1]);
        let next = res.mul(f);
        proof {
            let b = bit as int;
            lemma_mod_small(p, b);
            let c = y[n - i - 1];
            let t = y.take(n - i);
            assert(t.last() == c);
            assert(t.drop_last() =~= y.take(n - (i + 1)));
            let rest = eq_prod(idx as int / 2, t.drop_last());
            let e = eq_bit(b, c);
            lemma_eq_step(p, 1, b, c);
            lemma_mod_small(p, 1);
            assert(1 * (b * c + (1 - b) * (1 - c)) == b * c + (1 - b) * (1 - c));
            assert(1 * e == e);
            lemma_cong_mod(p, eq_pair(b, c));
            lemma_cong_mul(p, res.value(), res.value(), f.value(), e);
            lemma_cong_mod(p, res.value() * f.value());
            lemma_cong_mul(p, next.value(), res.value() * e, rest, rest);
            assert((res.value() * e) * rest == res.value() * (rest * e)) by (nonlinear_arith);
            lemma_mod_canonical(p, res.value() * f.value());
        }
        res = next;
        idx = idx / 2;
        i += 1;
    }
    proof {
        assert(y.take(0).len() == 0);
        assert(res.value() * 1 == res.value());
        lemma_mod_small(p, res.value());
    }
    res
}

/// The table `poly` with its first variable bound to `point`.
pub fn fold_by_msb<F: PrimeField>(poly: &Vec<F>, point: F) -> (r: Vec<F>)
    ensures
        vals(r@) == fold(F::modulus(), vals(poly@), point.value()),
{
    let n = poly.len();
    let halfsize: usize = n / 2;
    let ghost p = F::modulus();
    let mut r: Vec<F> = Vec::new();
    let mut k: usize = 0;
    while k < halfsize
        invariant
            k <= halfsize,
            n == poly@.len(),
            halfsize == n / 2,
            p == F::modulus(),
            r@.len() == k,
            forall|j: int| 0 <= j < k ==> #[trigger] r@[j].value() == line(
                vals(poly@),
                j,
                point.value(),
            ) % p,
        decreases halfsize - k,
    {
        r.push(line_at(poly[k], poly[k + halfsize], point));
        k += 1;
    }
    assert(vals(r@) =~= fold(p, vals(poly@), point.value()));
    r
}

/// `fold_by_msb`, for tables large enough to be worth sharing out.
pub fn par_fold_by_msb<F: PrimeField>(poly: &Vec<F>, point: F) -> (r: Vec<F>)
    ensures
        vals(r@) == fold(F::modulus(), vals(poly@), point.value()),
{
    fold_by_msb(poly, point)
}

/// The products `eq(i, y)` for all indices `i`; a single zero where `y` is empty.
pub fn eq_xy<F: PrimeField>(y: &Vec<F>) -> (r: Vec<F>)
    requires
        two_to(y@.len()) <= usize::MAX,
    ensures
        vals(r@) == tensor(F::modulus(), vals(y@)),
        r@.len() == two_to(y@.len()),
{
    let ghost p = F::modulus();
    let ghost yv = vals(y@);
    if y.len() == 0 {
        let mut r: Vec<F> = Vec::new();
        r.push(F::zero());
        assert(vals(r@) =~= seq![0]);
        assert(two_to(0) == 1);
        return r;
    }
    let mut evals: Vec<F> = Vec::new();
    evals.push(F::one());
    let mut i: usize = 0;
    proof {
        F::lemma_modulus();
        lemma_mod_small(p, 1);
        assert(vals(evals@) =~= basis(p, yv.take(0)));
    }
    while i < y.len()
        invariant
            i <= y@.len(),
            two_to(y@.len()) <= usize::MAX,
            p == F::modulus(),
            p > 6,
            yv == vals(y@),
            vals(evals@) == basis(p, yv.take(i as int)),
        decreases y@.len() - i,
    {
        let ghost before = yv.take(i as int);
        let ghost after = yv.take(i as int + 1);
        proof {
            assert(after.drop_last() =~= before);
            assert(after.last() == y@[i as int].value());
            lemma_two_to_monotone((i + 1) as nat, y@.len());
            assert(evals@.len() == vals(evals@).len());
            assert(two_to((i + 1) as nat) == 2 * two_to(i as nat));
        }
        let mut next: Vec<F> = Vec::new();
        let mut j: usize = 0;
        let n = evals.len();
        let c = y[i];
        while j < n
            invariant
                j <= n,
                n == evals@.len(),
                n == two_to(i as nat),
                p == F::modulus(),
                p > 6,
                before.len() == i,
                after.len() == i + 1,
                after.drop_last() == before,
                after.last() == c.value(),
                vals(evals@) == basis(p, before),
                next@.len() == 2 * j,
                forall|k: int| 0 <= k < 2 * j ==> #[trigger] next@[k].value() == eq_prod(k, after) % p,
            decreases n - j,
        {
            let e = evals[j];
            let hi = e.mul(c);
            let lo = e.sub(hi);
            proof {
                let eb = eq_prod(j as int, before);
                let cv = c.value();
                assert(e.value() == vals(evals@)[j as int]);
                assert(e.value() == eb % p);
                assert((2 * j) / 2 == j && (2 * j) % 2 == 0);
                assert((2 * j + 1) / 2 == j && (2 * j + 1) % 2 == 1);
                assert(eq_prod(2 * j as int, after) == eb * (1 - cv));
                assert(eq_prod(2 * j as int + 1, after) == eb * cv);
                lemma_cong_mod(p, eb);
                lemma_cong_mul(p, eb % p, eb, cv, cv);
                lemma_cong_mod(p, e.value() * cv);
                lemma_cong_sub(p, e.value(), eb, hi.value(), eb * cv);
                assert(eb - eb * cv == eb * (1 - cv)) by (nonlinear_arith);
            }
            next.push(lo);
            next.push(hi);
            j += 1;
        }
        assert(vals(next@) =~= basis(p, after));
        evals = next;
        i += 1;
    }
    assert(yv.take(y@.len() as int) =~= yv);
    assert(vals(evals@).len() == evals@.len());
    evals
}

/// The tensor of the first `log2(num_rows)` coordinates of `point`, and that of the others.
pub fn point_to_tensor_for_commit<F: PrimeField>(num_rows: usize, point: &Vec<F>) -> (r: (
    Vec<F>,
    Vec<F>,
))
    requires
        num_rows >= 1,
        is_power_of_two(num_rows as nat),
        log2_of(num_rows as nat) <= point@.len(),
        two_to((point@.len() - log2_of(num_rows as nat)) as nat) <= usize::MAX,
    ensures
        ({
            let k = log2_of(num_rows as nat) as int;
            &&& vals(r.0@) == tensor(F::modulus(), vals(point@).take(k))
            &&& vals(r.1@) == tensor(F::modulus(), vals(point@).skip(k))
        }),
{
    let k = log2(num_rows);
    let hi = sub_vector(point, 0, k);
    let lo = sub_vector(point, k, point.len());
    proof {
        assert(vals(hi@) =~= vals(point@).take(k as int));
        assert(vals(lo@) =~= vals(point@).skip(k as int));
    }
    (eq_xy(&hi), eq_xy(&lo))
}

/// `n` divided by a small number `k`.
pub fn divided<F: PrimeField>(n: F, k: u64) -> (r: F)
    requires
        1 <= k <= 6,
    ensures
        cong(F::modulus(), k * r.value(), n.value()),
{
    proof {
        F::lemma_modulus();
        lemma_mod_small(F::modulus(), k as int);
    }
    let kf = F::from_u64(k);
    let inverse = kf.invert();
    match inverse {
        Some(h) => {
            let r = n.mul(h);
            proof {
                let p = F::modulus();
                let (nv, hv, kv) = (n.value(), h.value(), k as int);
                lemma_mod_small(p, 1);
                lemma_cong_mod(p, nv * hv);
                lemma_cong_mul(p, kv, kv, r.value(), nv * hv);
                lemma_cong_mul(p, nv, nv, kv * hv, 1);
                assert(kv * (nv * hv) == nv * (kv * hv)) by (nonlinear_arith);
                assert(nv * 1 == nv);
            }
            r
        },
        None => n,
    }
}

/// `poly_at` for the coefficients of a quadratic.
pub proof fn lemma_poly_at_3(c: Seq<int>, x: int)
    requires
        c.len() == 3,
    ensures
        poly_at(c, x) == c[0] + x * c[1] + (x * x) * c[2],
{
    reveal_with_fuel(poly_at, 4);
    assert(c.skip(1).skip(1) =~= c.skip(2));
    assert(c.skip(2).skip(1) =~= Seq::empty());
    assert(poly_at(c.skip(2), x) == c[2] + x * 0);
    assert(x * 0 == 0) by (nonlinear_arith);
    assert(poly_at(c.skip(1), x) == c[1] + x * c[2]);
    assert(x * (c[1] + x * c[2]) == x * c[1] + (x * x) * c[2]) by (nonlinear_arith);
}

/// Replaces the first three entries, the values of a quadratic at 0, 1 and 2, by its
/// coefficients, the constant one first.
pub fn len_3_interpolate<F: PrimeField>(eval: &mut Vec<F>)
    requires
        old(eval)@.len() >= 3,
    ensures
        final(eval)@.len() == old(eval)@.len(),
        final(eval)@.skip(3) == old(eval)@.skip(3),
        ({
            let c = vals(final(eval)@).take(3);
            forall|i: int|
                0 <= i < 3 ==> poly_at(c, i) % F::modulus() == #[trigger] old(eval)@[i].value()
        }),
{
    let ghost p = F::modulus();
    let e0 = eval[0];
    let e1 = eval[1];
    let e2 = eval[2];
    let t0 = e0.sub(double(e1));
    let s = e0.add(e2);
    let ns = s.neg();
    let n1 = ns.sub(double(t0));
    let n2 = t0.add(e2);
    let c1 = divided(n1, 2);
    let c2 = divided(n2, 2);
    eval.set(1, c1);
    eval.set(2, c2);
    proof {
        F::lemma_modulus();
        let (a0, a1, a2) = (e0.value(), e1.value(), e2.value());
        e0.lemma_value();
        e1.lemma_value();
        e2.lemma_value();
        // the numerators, up to multiples of p
        lemma_cong_mod(p, 2 * a1);
        lemma_cong_sub(p, a0, a0, (2 * a1) % p, 2 * a1);
        lemma_cong_mod(p, a0 - (2 * a1) % p);
        assert(cong(p, t0.value(), a0 - 2 * a1));
        lemma_cong_mod(p, a0 + a2);
        lemma_cong_sub(p, 0, 0, s.value(), a0 + a2);
        lemma_cong_mod(p, -s.value());
        assert(cong(p, ns.value(), -(a0 + a2)));
        lemma_cong_mul(p, 2, 2, t0.value(), a0 - 2 * a1);
        lemma_cong_mod(p, 2 * t0.value());
        lemma_cong_sub(p, ns.value(), -(a0 + a2), (2 * t0.value()) % p, 2 * (a0 - 2 * a1));
        lemma_cong_mod(p, ns.value() - (2 * t0.value()) % p);
        let m1 = -(a0 + a2) - 2 * (a0 - 2 * a1);
        assert(cong(p, n1.value(), m1));
        lemma_cong_add(p, t0.value(), a0 - 2 * a1, a2, a2);
        lemma_cong_mod(p, t0.value() + a2);
        let m2 = a0 - 2 * a1 + a2;
        assert(cong(p, n2.value(), m2));
        lemma_quadratic_from_values(p, a0, a1, a2, c1.value(), c2.value());
        let c = vals(eval@).take(3);
        assert(c =~= seq![a0, c1.value(), c2.value()]);
        lemma_mod_small(p, a0);
        lemma_mod_small(p, a1);
        lemma_mod_small(p, a2);
        assert forall|i: int| 0 <= i < 3 implies poly_at(c, i) % p == #[trigger] old(eval)@[i].value() by {
            if i == 0 {
            } else if i == 1 {
            } else {
                assert(i == 2);
            }
        }
        assert(eval@.skip(3) =~= old(eval)@.skip(3));
    }
}

/// Coefficients with the right doubles belong to the quadratic through three values.
pub proof fn lemma_quadratic_from_values(p: int, a0: int, a1: int, a2: int, c1: int, c2: int)
    requires
        p > 0,
        p % 2 == 1,
        cong(p, 2 * c1, -(a0 + a2) - 2 * (a0 - 2 * a1)),
        cong(p, 2 * c2, a0 - 2 * a1 + a2),
    ensures
        ({
            let c = seq![a0, c1, c2];
            &&& cong(p, poly_at(c, 0), a0)
            &&& cong(p, poly_at(c, 1), a1)
            &&& cong(p, poly_at(c, 2), a2)
        }),
{
    let c = seq![a0, c1, c2];
    lemma_poly_at_3(c, 0);
    lemma_poly_at_3(c, 1);
    lemma_poly_at_3(c, 2);
    let k1 = lemma_cong_witness(p, 2 * c1, -(a0 + a2) - 2 * (a0 - 2 * a1));
    let k2 = lemma_cong_witness(p, 2 * c2, a0 - 2 * a1 + a2);
    assert(0 * c1 == 0 && (0 * 0) * c2 == 0) by (nonlinear_arith);
    let d = poly_at(c, 1) - a1;
    assert((1 * 1) * c2 == c2 && 1 * c1 == c1);
    assert(2 * d == k1 * p + k2 * p);
    assert(2 * d == 0 + (k1 + k2) * p) by (nonlinear_arith)
        requires
            2 * d == k1 * p + k2 * p,
    ;
    lemma_cong_multiple(p, 2 * d, 0, k1 + k2);
    lemma_halve(p, d);
    lemma_cong_add(p, d, 0, a1, a1);
    assert((2 * 2) * c2 == 4 * c2);
    assert(poly_at(c, 2) == a2 + (k1 + 2 * k2) * p) by (nonlinear_arith)
        requires
            poly_at(c, 2) == a0 + 2 * c1 + 4 * c2,
            2 * c1 == -(a0 + a2) - 2 * (a0 - 2 * a1) + k1 * p,
            2 * c2 == a0 - 2 * a1 + a2 + k2 * p,
    ;
    lemma_cong_multiple(p, poly_at(c, 2), a2, k1 + 2 * k2);
}

/// Evaluates at `x` the polynomial with the coefficients `p`, the constant one first.
pub fn eval<F: PrimeField>(p: &Vec<F>, x: F) -> (r: F)
    ensures
        r.value() == poly_at(vals(p@), x.value()) % F::modulus(),
{
    let ghost m = F::modulus();
    let ghost c = vals(p@);
    let n = p.len();
    let mut acc = F::zero();
    let mut i: usize = n;
    proof {
        F::lemma_modulus();
        lemma_mod_small(m, 0);
        assert(c.skip(n as int) =~= Seq::empty());
    }
    while i > 0
        invariant
            i <= n,
            n == p@.len(),
            m == F::modulus(),
            m > 6,
            c == vals(p@),
            acc.value() == poly_at(c.skip(i as int), x.value()) % m,
        decreases i,
    {
        i -= 1;
        let t = acc.mul(x);
        let next = t.add(p[i]);
        proof {
            let xv = x.value();
            let tail = poly_at(c.skip(i as int + 1), xv);
            assert(c.skip(i as int).skip(1) =~= c.skip(i as int + 1));
            assert(c.skip(i as int)[0] == c[i as int]);
            lemma_cong_mod(m, tail);
            lemma_cong_mul(m, tail % m, tail, xv, xv);
            lemma_cong_mod(m, acc.value() * xv);
            lemma_cong_add(m, t.value(), tail * xv, c[i as int], c[i as int]);
            assert(tail * xv == xv * tail) by (nonlinear_arith);
        }
        acc = next;
    }
    assert(c.skip(0) =~= c);
    acc
}

/// The product of `x * y + (1 - x) * (1 - y)` over the coordinates of two points.
pub fn evaluate_eq<F: PrimeField>(r_x: &Vec<F>, r_y: &Vec<F>) -> (r: F)
    requires
        r_x@.len() == r_y@.len(),
    ensures
        r.value() == eq_points(vals(r_x@), vals(r_y@)) % F::modulus(),
{
    let ghost p = F::modulus();
    let ghost x = vals(r_x@);
    let ghost y = vals(r_y@);
    let mut acc = F::one();
    let mut i: usize = 0;
    proof {
        F::lemma_modulus();
        lemma_mod_small(p, 1);
        assert(x.take(0).len() == 0);
    }
    while i < r_x.len()
        invariant
            i <= r_x@.len(),
            r_x@.len() == r_y@.len(),
            p == F::modulus(),
            p > 6,
            x == vals(r_x@),
            y == vals(r_y@),
            acc.value() == eq_points(x.take(i as int), y.take(i as int)) % p,
        decreases r_x@.len() - i,
    {
        let f = eq_factor(r_x[i], r_y[i]);
        let next = acc.mul(f);
        proof {
            let j = i as int;
            assert(x.take(j + 1).drop_last() =~= x.take(j));
            assert(y.take(j + 1).drop_last() =~= y.take(j));
            assert(x.take(j + 1).last() == x[j]);
            assert(y.take(j + 1).last() == y[j]);
            lemma_mul_mod_noop(eq_points(x.take(j), y.take(j)), eq_pair(x[j], y[j]), p);
        }
        acc = next;
        i += 1;
    }
    assert(x.take(r_x@.len() as int) =~= x);
    assert(y.take(r_y@.len() as int) =~= y);
    acc
}

} // verus!
