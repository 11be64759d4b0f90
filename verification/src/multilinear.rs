//! Multilinear polynomials over the hypercube, given by their tables of values.
use vstd::prelude::*;
use crate::algebra::{
    canonical, cong, cong_seq, lemma_cong_add, lemma_cong_mod, lemma_cong_mul,
    lemma_canonical_unique, lemma_mod_canonical, lemma_mod_small, lemma_two_to_positive,
    two_to,
};
use crate::sums::{
    dot, lemma_dot_cong, lemma_reduced_cong, lemma_sum_add, lemma_sum_concat, lemma_sum_scale,
    lemma_sum_cong, lemma_sum_zero, sum,
};

verus! {

/// The value at `x` of the line through the entries of `t` that differ in the highest bit of
/// their index, the other bits of which are `k`.
pub open spec fn line(t: Seq<int>, k: int, x: int) -> int {
    t[k] + (t[k + t.len() / 2] - t[k]) * x
}

/// The table that is left when the first variable of `t` takes the value `r`.
pub open spec fn fold(p: int, t: Seq<int>, r: int) -> Seq<int> {
    Seq::new(t.len() / 2, |k: int| line(t, k, r) % p)
}

pub open spec fn fold_all(p: int, ts: Seq<Seq<int>>, r: int) -> Seq<Seq<int>> {
    Seq::new(ts.len(), |i: int| fold(p, ts[i], r))
}

/// The table that is left when the first variables of `t` take the values `rs`.
pub open spec fn bind(p: int, t: Seq<int>, rs: Seq<int>) -> Seq<int>
    decreases rs.len(),
{
    if rs.len() == 0 {
        t
    } else {
        fold(p, bind(p, t, rs.drop_last()), rs.last())
    }
}

pub open spec fn bind_all(p: int, ts: Seq<Seq<int>>, rs: Seq<int>) -> Seq<Seq<int>> {
    Seq::new(ts.len(), |i: int| bind(p, ts[i], rs))
}

/// The factor that a bit contributes at a coordinate.
pub open spec fn eq_bit(b: int, y: int) -> int {
    if b == 1 {
        y
    } else {
        1 - y
    }
}

/// The product over all coordinates of `y` of the factors for the bits of `i`; the last
/// coordinate goes with the lowest bit.
pub open spec fn eq_prod(i: int, y: Seq<int>) -> int
    decreases y.len(),
{
    if y.len() == 0 {
        1
    } else {
        eq_prod(i / 2, y.drop_last()) * eq_bit(i % 2, y.last())
    }
}

/// All products `eq_prod(i, y)`, reduced.
pub open spec fn basis(p: int, y: Seq<int>) -> Seq<int> {
    Seq::new(two_to(y.len()), |i: int| eq_prod(i, y) % p)
}

/// `basis`, but for a point without coordinates, for which it holds a zero.
pub open spec fn tensor(p: int, y: Seq<int>) -> Seq<int> {
    if y.len() == 0 {
        seq![0]
    } else {
        basis(p, y)
    }
}

/// The value at `y` of the multilinear polynomial with the values `c` on the hypercube.
pub open spec fn mle(p: int, c: Seq<int>, y: Seq<int>) -> int {
    dot(c, basis(p, y)) % p
}

/// `1` on equal bits and `0` on different ones.
pub open spec fn eq_pair(x: int, y: int) -> int {
    x * y + (1 - x) * (1 - y)
}

/// The product of `eq_pair` over the coordinates.
pub open spec fn eq_points(x: Seq<int>, y: Seq<int>) -> int
    decreases x.len(),
{
    if x.len() == 0 {
        1
    } else {
        eq_points(x.drop_last(), y.drop_last()) * eq_pair(x.last(), y.last())
    }
}

/// The value at `x` of the polynomial with the coefficients `c`, the constant one first.
pub open spec fn poly_at(c: Seq<int>, x: int) -> int
    decreases c.len(),
{
    if c.len() == 0 {
        0
    } else {
        c[0] + x * poly_at(c.skip(1), x)
    }
}

pub proof fn lemma_fold_canonical(p: int, t: Seq<int>, r: int)
    requires
        p > 0,
    ensures
        canonical(p, fold(p, t, r)),
        fold(p, t, r).len() == t.len() / 2,
{
    assert forall|i: int| 0 <= i < fold(p, t, r).len() implies 0 <= #[trigger] fold(p, t, r)[i] < p by {
        lemma_mod_canonical(p, line(t, i, r));
    }
}

pub proof fn lemma_bind_canonical(p: int, t: Seq<int>, rs: Seq<int>)
    requires
        p > 0,
        canonical(p, t),
    ensures
        canonical(p, bind(p, t, rs)),
    decreases rs.len(),
{
    if rs.len() > 0 {
        lemma_bind_canonical(p, t, rs.drop_last());
        lemma_fold_canonical(p, bind(p, t, rs.drop_last()), rs.last());
    }
}

/// The first value may be bound first.
pub proof fn lemma_bind_front(p: int, t: Seq<int>, rs: Seq<int>)
    requires
        rs.len() > 0,
    ensures
        bind(p, t, rs) == bind(p, fold(p, t, rs[0]), rs.skip(1)),
    decreases rs.len(),
{
    if rs.len() == 1 {
        assert(rs.drop_last() =~= Seq::empty());
        assert(rs.skip(1) =~= Seq::empty());
        assert(bind(p, t, rs.drop_last()) == t);
    } else {
        lemma_bind_front(p, t, rs.drop_last());
        assert(rs.skip(1).drop_last() =~= rs.drop_last().skip(1));
    }
}

/// The highest bit of the index goes with the first coordinate.
pub proof fn lemma_eq_prod_high(i: int, y: Seq<int>)
    requires
        y.len() > 0,
        0 <= i < two_to(y.len()),
    ensures
        ({
            let h = two_to((y.len() - 1) as nat) as int;
            eq_prod(i, y) == (if i < h {
                (1 - y[0]) * eq_prod(i, y.skip(1))
            } else {
                y[0] * eq_prod(i - h, y.skip(1))
            })
        }),
    decreases y.len(),
{
    let h = two_to((y.len() - 1) as nat) as int;
    if y.len() == 1 {
        assert(h == 1);
        assert(two_to(1) == 2 * two_to(0));
        assert(y.drop_last().len() == 0);
        assert(y.skip(1).len() == 0);
        assert(eq_prod(i / 2, y.drop_last()) == 1);
        assert(eq_prod(i, y) == eq_bit(i % 2, y.last()));
        assert(eq_prod(i, y.skip(1)) == 1);
        assert(eq_prod(i - h, y.skip(1)) == 1);
        assert((1 - y[0]) * 1 == 1 - y[0]);
        assert(y[0] * 1 == y[0]);
    } else {
        let z = y.drop_last();
        let g = two_to((y.len() - 2) as nat) as int;
        assert(h == 2 * g);
        assert(two_to(y.len()) == 2 * h);
        lemma_eq_prod_high(i / 2, z);
        assert(z.skip(1) =~= y.skip(1).drop_last());
        assert(y.skip(1).last() == y.last());
        let e = eq_bit(i % 2, y.last());
        if i < h {
            assert(eq_prod(i, y.skip(1)) == eq_prod(i / 2, z.skip(1)) * e);
            assert(((1 - y[0]) * eq_prod(i / 2, z.skip(1))) * e == (1 - y[0]) * (eq_prod(i / 2, z.skip(1)) * e))
                by (nonlinear_arith);
        } else {
            assert((i - h) / 2 == i / 2 - g);
            assert((i - h) % 2 == i % 2);
            assert(eq_prod(i - h, y.skip(1)) == eq_prod(i / 2 - g, z.skip(1)) * e);
            assert((y[0] * eq_prod(i / 2 - g, z.skip(1))) * e == y[0] * (eq_prod(i / 2 - g, z.skip(1)) * e))
                by (nonlinear_arith);
        }
    }
}

/// The unreduced products `eq_prod(i, y)`.
pub open spec fn eq_table(y: Seq<int>) -> Seq<int> {
    Seq::new(two_to(y.len()), |i: int| eq_prod(i, y))
}

pub proof fn lemma_eq_table_high(y: Seq<int>)
    requires
        y.len() > 0,
    ensures
        ({
            let z = eq_table(y.skip(1));
            let n = z.len();
            &&& n == two_to((y.len() - 1) as nat)
            &&& eq_table(y).len() == 2 * n
            &&& eq_table(y) == Seq::new(n, |i: int| (1 - y[0]) * z[i]) + Seq::new(n, |i: int| y[0] * z[i])
        }),
{
    let z = eq_table(y.skip(1));
    let n = z.len();
    assert(two_to(y.len()) == 2 * two_to((y.len() - 1) as nat));
    let s = Seq::new(n, |i: int| (1 - y[0]) * z[i]) + Seq::new(n, |i: int| y[0] * z[i]);
    assert forall|i: int| 0 <= i < 2 * n implies eq_table(y)[i] == s[i] by {
        lemma_eq_prod_high(i, y);
    }
    assert(eq_table(y) =~= s);
}

/// Folding the first variable to the value that the point has there leaves the inner product as
/// it is.
pub proof fn lemma_fold_dot(p: int, t: Seq<int>, y: Seq<int>)
    requires
        p > 0,
        y.len() > 0,
        t.len() == two_to(y.len()),
    ensures
        cong(p, dot(t, eq_table(y)), dot(fold(p, t, y[0]), eq_table(y.skip(1)))),
{
    lemma_eq_table_high(y);
    let z = eq_table(y.skip(1));
    let n = z.len();
    let r = y[0];
    let lo = Seq::new(n, |i: int| t[i] * ((1 - r) * z[i]));
    let hi = Seq::new(n, |i: int| t[i + n] * (r * z[i]));
    let all = Seq::new(t.len(), |i: int| t[i] * eq_table(y)[i]);
    assert(all =~= lo + hi);
    lemma_sum_concat(lo, hi);
    lemma_sum_add(lo, hi);
    let both = Seq::new(n, |i: int| lo[i] + hi[i]);
    let f = fold(p, t, r);
    let folded = Seq::new(n, |i: int| f[i] * z[i]);
    assert(t.len() / 2 == n);
    assert forall|i: int| 0 <= i < n implies cong(p, #[trigger] both[i], folded[i]) by {
        let l = line(t, i, r);
        assert(t[i] * ((1 - r) * z[i]) + t[i + n] * (r * z[i]) == (t[i] + (t[i + n] - t[i]) * r) * z[i])
            by (nonlinear_arith);
        lemma_cong_mod(p, l);
        lemma_cong_mul(p, l % p, l, z[i], z[i]);
    }
    lemma_sum_cong(p, both, folded);
    assert(dot(t, eq_table(y)) == sum(all));
    assert(dot(f, z) == sum(folded));
}

pub proof fn lemma_bind_dot(p: int, t: Seq<int>, y: Seq<int>)
    requires
        p > 0,
        t.len() == two_to(y.len()),
    ensures
        bind(p, t, y).len() == 1,
        cong(p, dot(t, eq_table(y)), bind(p, t, y)[0]),
    decreases y.len(),
{
    if y.len() == 0 {
        let s = Seq::new(1, |i: int| t[i] * eq_table(y)[i]);
        assert(s.drop_last() =~= Seq::empty());
        assert(sum(s) == sum(s.drop_last()) + s.last());
        assert(s.last() == t[0] * 1);
        assert(eq_table(y).len() == 1);
    } else {
        lemma_fold_dot(p, t, y);
        assert(two_to(y.len()) == 2 * two_to((y.len() - 1) as nat));
        lemma_bind_dot(p, fold(p, t, y[0]), y.skip(1));
        lemma_bind_front(p, t, y);
    }
}

pub proof fn lemma_basis_cong(p: int, y: Seq<int>)
    requires
        p > 0,
    ensures
        cong_seq(p, basis(p, y), eq_table(y)),
{
    lemma_reduced_cong(p, eq_table(y));
    assert(basis(p, y) =~= Seq::new(eq_table(y).len(), |i: int| eq_table(y)[i] % p));
}

/// Binding every variable of a table evaluates its multilinear polynomial.
pub proof fn law_bind_evaluates(p: int, t: Seq<int>, y: Seq<int>)
    requires
        p > 0,
        canonical(p, t),
        t.len() == two_to(y.len()),
    ensures
        bind(p, t, y).len() == 1,
        bind(p, t, y)[0] == mle(p, t, y),
{
    lemma_bind_dot(p, t, y);
    lemma_bind_canonical(p, t, y);
    lemma_basis_cong(p, y);
    assert(cong_seq(p, t, t));
    lemma_dot_cong(p, t, t, basis(p, y), eq_table(y));
    let d = dot(t, basis(p, y));
    lemma_mod_canonical(p, d);
    lemma_canonical_unique(p, bind(p, t, y)[0], d % p);
}

/// The bit `k` of an index.
pub open spec fn bit_of(i: int, k: nat) -> int {
    (i / two_to(k) as int) % 2
}

/// The product, over the bits of `i` from the bit `k` on, of the factors at the coordinates of `r`;
/// the first coordinate goes with the lowest bit.
pub open spec fn bits_product(i: int, r: Seq<int>, k: nat) -> int
    decreases r.len() - k,
{
    if k >= r.len() {
        1
    } else {
        bits_product(i, r, k + 1) * eq_bit(bit_of(i, k), r[k as int])
    }
}

/// What is left of an index without its lowest bits goes with the first coordinates.
proof fn lemma_bits_from(i: int, y: Seq<int>, k: nat)
    requires
        0 <= i,
        k <= y.len(),
    ensures
        bits_product(i, y.reverse(), k) == eq_prod(i / two_to(k) as int, y.take(y.len() - k)),
    decreases y.len() - k,
{
    let r = y.reverse();
    if k < y.len() {
        let z = y.take(y.len() - k);
        lemma_bits_from(i, y, k + 1);
        assert(z.drop_last() =~= y.take(y.len() - (k + 1)));
        assert(z.last() == r[k as int]);
        lemma_two_to_positive(k);
        assert(two_to(k + 1) == 2 * two_to(k));
        let q = two_to(k) as int;
        vstd::arithmetic::div_mod::lemma_div_denominator(i, q, 2);
        assert(q * 2 == 2 * q);
    }
}

/// `eq_prod` is the product over all bits of the index, the lowest of which goes with the last
/// coordinate.
pub proof fn law_eq_bits(i: int, y: Seq<int>)
    requires
        0 <= i,
    ensures
        eq_prod(i, y) == bits_product(i, y.reverse(), 0),
{
    lemma_bits_from(i, y, 0);
    assert(two_to(0) == 1);
    assert(i / 1 == i);
    assert(y.take(y.len() as int) =~= y);
}

/// The corner of the hypercube whose coordinates are the bits of `j`, the lowest one last.
pub open spec fn corner(j: int, n: nat) -> Seq<int>
    decreases n,
{
    if n == 0 {
        Seq::empty()
    } else {
        corner(j / 2, (n - 1) as nat).push(j % 2)
    }
}

/// At a corner of the hypercube the product for the index of the corner is one, and every other is
/// zero.
pub proof fn law_eq_corner(i: int, j: int, n: nat)
    requires
        0 <= i < two_to(n),
        0 <= j < two_to(n),
    ensures
        corner(j, n).len() == n,
        eq_prod(i, corner(j, n)) == (if i == j {
            1int
        } else {
            0
        }),
    decreases n,
{
    if n > 0 {
        let y = corner(j, n);
        law_eq_corner(i / 2, j / 2, (n - 1) as nat);
        assert(y.drop_last() =~= corner(j / 2, (n - 1) as nat));
        let q = eq_prod(i / 2, y.drop_last());
        let b = eq_bit(i % 2, y.last());
        assert(b == (if i % 2 == j % 2 {
            1int
        } else {
            0
        }));
        assert(q * 1 == q);
        assert(q * 0 == 0);
    }
}

/// The multilinear polynomial of a table takes the values of the table on the hypercube.
pub proof fn law_corner_value(p: int, t: Seq<int>, j: int, n: nat)
    requires
        p > 1,
        canonical(p, t),
        t.len() == two_to(n),
        0 <= j < t.len(),
    ensures
        mle(p, t, corner(j, n)) == t[j],
{
    let y = corner(j, n);
    law_eq_corner(j, j, n);
    let s = Seq::new(t.len(), |i: int| t[i] * basis(p, y)[i]);
    assert forall|i: int| 0 <= i < t.len() implies #[trigger] s[i] == (if i == j {
        t[j]
    } else {
        0
    }) by {
        law_eq_corner(i, j, n);
        lemma_mod_small(p, 0);
        lemma_mod_small(p, 1);
        assert(t[i] * 1 == t[i]);
        assert(t[i] * 0 == 0);
    }
    let (lo, mid, hi) = (s.take(j), seq![t[j]], s.skip(j + 1));
    assert(s =~= (lo + mid) + hi);
    lemma_sum_concat(lo + mid, hi);
    lemma_sum_concat(lo, mid);
    lemma_sum_zero(lo);
    lemma_sum_zero(hi);
    assert(mid.drop_last() =~= Seq::empty());
    assert(sum(mid) == sum(mid.drop_last()) + t[j]);
    lemma_mod_small(p, t[j]);
}

/// `eq_points` may be taken apart at the front as well.
pub proof fn lemma_eq_points_front(x: Seq<int>, y: Seq<int>)
    requires
        x.len() == y.len(),
        x.len() > 0,
    ensures
        eq_points(x, y) == eq_pair(x[0], y[0]) * eq_points(x.skip(1), y.skip(1)),
    decreases x.len(),
{
    if x.len() == 1 {
        assert(x.drop_last().len() == 0);
        assert(x.skip(1).len() == 0);
        assert(eq_points(x.drop_last(), y.drop_last()) == 1);
        assert(eq_points(x.skip(1), y.skip(1)) == 1);
        assert(1 * eq_pair(x[0], y[0]) == eq_pair(x[0], y[0]) * 1);
    } else {
        lemma_eq_points_front(x.drop_last(), y.drop_last());
        assert(x.skip(1).drop_last() =~= x.drop_last().skip(1));
        assert(y.skip(1).drop_last() =~= y.drop_last().skip(1));
        let a = eq_pair(x[0], y[0]);
        let m = eq_points(x.skip(1).drop_last(), y.skip(1).drop_last());
        let b = eq_pair(x.last(), y.last());
        assert((a * m) * b == a * (m * b)) by (nonlinear_arith);
    }
}

/// The two products of a point meet in `eq_points`.
pub proof fn law_eq_points_sum(x: Seq<int>, y: Seq<int>)
    requires
        x.len() == y.len(),
    ensures
        dot(eq_table(x), eq_table(y)) == eq_points(x, y),
    decreases x.len(),
{
    if x.len() == 0 {
        let s = Seq::new(1, |i: int| eq_table(x)[i] * eq_table(y)[i]);
        assert(s.drop_last() =~= Seq::empty());
        assert(sum(s) == sum(s.drop_last()) + s.last());
        assert(eq_table(x)[0] == 1);
        assert(eq_table(y)[0] == 1);
        assert(s.last() == 1 * 1);
    } else {
        lemma_eq_table_high(x);
        lemma_eq_table_high(y);
        let a = eq_table(x.skip(1));
        let b = eq_table(y.skip(1));
        let n = a.len();
        let d = Seq::new(n, |i: int| a[i] * b[i]);
        let c0 = (1 - x[0]) * (1 - y[0]);
        let c1 = x[0] * y[0];
        let lo = Seq::new(n, |i: int| c0 * d[i]);
        let hi = Seq::new(n, |i: int| c1 * d[i]);
        let all = Seq::new(2 * n, |i: int| eq_table(x)[i] * eq_table(y)[i]);
        assert forall|i: int| 0 <= i < 2 * n implies all[i] == (lo + hi)[i] by {
            if i < n {
                assert(((1 - x[0]) * a[i]) * ((1 - y[0]) * b[i]) == ((1 - x[0]) * (1 - y[0])) * (a[i] * b[i]))
                    by (nonlinear_arith);
            } else {
                let j = i - n;
                assert((x[0] * a[j]) * (y[0] * b[j]) == (x[0] * y[0]) * (a[j] * b[j]))
                    by (nonlinear_arith);
            }
        }
        assert(all =~= lo + hi);
        lemma_sum_concat(lo, hi);
        lemma_sum_scale(c0, d);
        lemma_sum_scale(c1, d);
        law_eq_points_sum(x.skip(1), y.skip(1));
        lemma_eq_points_front(x, y);
        let m = sum(d);
        assert(c0 * m + c1 * m == (c1 + c0) * m) by (nonlinear_arith);
        assert(dot(eq_table(x), eq_table(y)) == sum(all));
    }
}

pub proof fn lemma_mle_cong(p: int, t: Seq<int>, y: Seq<int>)
    requires
        p > 0,
    ensures
        cong(p, mle(p, t, y), dot(t, eq_table(y))),
        0 <= mle(p, t, y) < p,
{
    lemma_basis_cong(p, y);
    assert(cong_seq(p, t, t));
    lemma_dot_cong(p, t, t, basis(p, y), eq_table(y));
    lemma_cong_mod(p, dot(t, basis(p, y)));
    lemma_mod_canonical(p, dot(t, basis(p, y)));
}

/// Binding the basis of a point to another point gives `eq_points`.
pub proof fn lemma_bind_basis(p: int, x: Seq<int>, y: Seq<int>)
    requires
        p > 0,
        x.len() == y.len(),
    ensures
        bind(p, basis(p, x), y).len() == 1,
        cong(p, bind(p, basis(p, x), y)[0], eq_points(x, y)),
{
    lemma_bind_dot(p, basis(p, x), y);
    lemma_basis_cong(p, x);
    assert(cong_seq(p, eq_table(y), eq_table(y)));
    lemma_dot_cong(p, basis(p, x), eq_table(x), eq_table(y), eq_table(y));
    law_eq_points_sum(x, y);
}

/// The polynomial of a table is linear in the last variable, which tells even from odd entries.
pub proof fn lemma_mle_last(p: int, t: Seq<int>, y: Seq<int>, r: int)
    requires
        p > 0,
        t.len() == two_to(y.len() + 1),
    ensures
        ({
            let n = two_to(y.len());
            let a = mle(p, Seq::new(n, |i: int| t[2 * i]), y);
            let b = mle(p, Seq::new(n, |i: int| t[2 * i + 1]), y);
            cong(p, mle(p, t, y.push(r)), a + (b - a) * r)
        }),
{
    let n = two_to(y.len());
    let e = Seq::new(n, |i: int| t[2 * i]);
    let o = Seq::new(n, |i: int| t[2 * i + 1]);
    let z = y.push(r);
    assert(z.drop_last() =~= y);
    assert(two_to(y.len() + 1) == 2 * n);
    let s = Seq::new(2 * n, |i: int| t[i] * eq_table(z)[i]);
    assert(dot(t, eq_table(z)) == sum(s));
    crate::sums::lemma_sum_pairs(s, n);
    let pairs = Seq::new(n, |k: int| s[2 * k] + s[2 * k + 1]);
    let de = Seq::new(n, |k: int| e[k] * eq_table(y)[k]);
    let do_ = Seq::new(n, |k: int| o[k] * eq_table(y)[k]);
    let a = Seq::new(n, |k: int| (1 - r) * de[k]);
    let b = Seq::new(n, |k: int| r * do_[k]);
    assert forall|k: int| 0 <= k < n implies #[trigger] pairs[k] == a[k] + b[k] by {
        assert((2 * k) / 2 == k && (2 * k) % 2 == 0);
        assert((2 * k + 1) / 2 == k && (2 * k + 1) % 2 == 1);
        let q = eq_prod(k, y);
        assert(eq_prod(2 * k, z) == q * (1 - r));
        assert(eq_prod(2 * k + 1, z) == q * r);
        let (u, v) = (t[2 * k], t[2 * k + 1]);
        assert(u * (q * (1 - r)) == (1 - r) * (u * q)) by (nonlinear_arith);
        assert(v * (q * r) == r * (v * q)) by (nonlinear_arith);
    }
    assert(pairs =~= Seq::new(a.len(), |k: int| a[k] + b[k]));
    lemma_sum_add(a, b);
    lemma_sum_scale(1 - r, de);
    lemma_sum_scale(r, do_);
    let (ea, oa) = (mle(p, e, y), mle(p, o, y));
    lemma_mle_cong(p, e, y);
    lemma_mle_cong(p, o, y);
    lemma_mle_cong(p, t, z);
    assert(dot(e, eq_table(y)) == sum(de));
    assert(dot(o, eq_table(y)) == sum(do_));
    lemma_cong_mul(p, 1 - r, 1 - r, ea, sum(de));
    lemma_cong_mul(p, r, r, oa, sum(do_));
    lemma_cong_add(p, (1 - r) * ea, (1 - r) * sum(de), r * oa, r * sum(do_));
    assert((1 - r) * ea + r * oa == ea + (oa - ea) * r) by (nonlinear_arith);
}

} // verus!
