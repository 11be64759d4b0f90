//! How evaluations of tables hang together.
use vstd::prelude::*;
use crate::algebra::{
    canonical, cong, lemma_cong_mod, lemma_cong_mul, lemma_mod_small, lemma_two_to_add,
    lemma_two_to_positive, two_to,
};
use crate::basefold::bit_reversed;
use crate::basefold_batch::combine;
use crate::bits::{lemma_log2_two_to, lemma_reversed_bound, reversed};
use crate::brakingbase::repeated;
use crate::brakingbase_open::leading;
use crate::brakingbase_verify::blend;
use crate::multilinear::{
    bind, eq_prod, eq_table, law_bind_evaluates, lemma_eq_prod_high, lemma_eq_table_high,
    lemma_mle_cong, mle,
};
use crate::rounds::{
    Comb, Shape, all_canonical, lemma_prove_rounds_shape, prove_rounds, row, total, uniform,
};
use crate::sums::{
    dot, lemma_sum_add, lemma_sum_concat, lemma_sum_exchange, lemma_sum_ext, lemma_sum_factor,
    lemma_sum_of_cong, lemma_sum_pairs, lemma_sum_scale, lemma_sum_step, sum, sum_of,
};
use crate::transcript::{Tx, extends};

verus! {

/// A sum in which only one term counts.
pub proof fn lemma_indicator_sum(n: nat, a: int, v: int, g: spec_fn(int) -> int)
    requires
        forall|k: int|
            0 <= k < n ==> #[trigger] g(k) == (if k == a {
                v
            } else {
                0
            }),
    ensures
        sum_of(n, g) == (if 0 <= a < n {
            v
        } else {
            0
        }),
    decreases n,
{
    if n == 0 {
        lemma_sum_step(0, g);
    } else {
        lemma_indicator_sum((n - 1) as nat, a, v, g);
        lemma_sum_step((n - 1) as nat, g);
    }
}

/// The entry `k` of what is gathered from `m` weights at their indices.
pub open spec fn gathered(m: nat, idx: spec_fn(int) -> int, w: spec_fn(int) -> int, k: int) -> int {
    sum_of(
        m,
        |i: int|
            if idx(i) == k {
                w(i)
            } else {
                0int
            },
    )
}

/// Weights that are gathered at indices give the same sum as the weights one by one.
pub proof fn lemma_gathered_sum(
    n: nat,
    m: nat,
    idx: spec_fn(int) -> int,
    w: spec_fn(int) -> int,
    g: spec_fn(int) -> int,
)
    requires
        forall|i: int| 0 <= i < m ==> 0 <= #[trigger] idx(i) < n,
    ensures
        sum_of(n, |k: int| gathered(m, idx, w, k) * g(k)) == sum_of(m, |i: int| w(i) * g(idx(i))),
{
    let f = |k: int, i: int|
        if idx(i) == k {
            w(i) * g(k)
        } else {
            0int
        };
    lemma_sum_exchange(n, m, f);
    let left = |k: int| gathered(m, idx, w, k) * g(k);
    let mid = |k: int| sum_of(m, |i: int| f(k, i));
    assert forall|k: int| 0 <= k < n implies #[trigger] left(k) == mid(k) by {
        let t = |i: int|
            if idx(i) == k {
                w(i)
            } else {
                0int
            };
        lemma_sum_factor(m, g(k), t);
        assert(left(k) == sum_of(m, t) * g(k));
        assert(sum_of(m, t) * g(k) == g(k) * sum_of(m, t)) by (nonlinear_arith);
        let a = |i: int| g(k) * t(i);
        let b = |i: int| f(k, i);
        assert forall|i: int| 0 <= i < m implies #[trigger] a(i) == b(i) by {
            assert(g(k) * w(i) == w(i) * g(k)) by (nonlinear_arith);
            assert(g(k) * 0 == 0) by (nonlinear_arith);
        }
        lemma_sum_ext(m, a, b);
    }
    lemma_sum_ext(n, left, mid);
    let swapped = |i: int| sum_of(n, |k: int| f(k, i));
    let right = |i: int| w(i) * g(idx(i));
    assert forall|i: int| 0 <= i < m implies #[trigger] swapped(i) == right(i) by {
        let a = |k: int| f(k, i);
        assert forall|k: int| 0 <= k < n implies #[trigger] a(k) == (if k == idx(i) {
            w(i) * g(idx(i))
        } else {
            0
        }) by {}
        lemma_indicator_sum(n, idx(i), w(i) * g(idx(i)), a);
        assert(0 <= idx(i) < n);
    }
    lemma_sum_ext(m, swapped, right);
}

/// A sum of products of sequences, as a sum of terms.
pub proof fn lemma_dot_sum(a: Seq<int>, b: Seq<int>, n: nat)
    requires
        a.len() == n,
        b.len() >= n,
    ensures
        dot(a, b) == sum_of(n, |i: int| a[i] * b[i]),
{
    assert(Seq::new(
        if a.len() <= b.len() {
            a.len()
        } else {
            b.len()
        },
        |i: int| a[i] * b[i],
    ) =~= Seq::new(n, |i: int| a[i] * b[i]));
}

/// The combination of tables, weighed by `g`, is the combination of the weighed tables.
pub proof fn lemma_combine_dot(p: int, rc: Seq<int>, vs: Seq<Seq<int>>, g: Seq<int>)
    requires
        p > 0,
        uniform(vs, g.len()),
    ensures
        cong(
            p,
            dot(combine(p, rc, vs, g.len()), g),
            sum_of(vs.len(), |i: int| rc[i] * dot(vs[i], g)),
        ),
{
    let n = g.len();
    let m = vs.len();
    let c = combine(p, rc, vs, n);
    let f = |j: int, i: int| rc[i] * vs[i][j] * g[j];
    let left = |j: int| c[j] * g[j];
    let mid = |j: int| sum_of(m, |i: int| f(j, i));
    lemma_dot_sum(c, g, n);
    assert forall|j: int| 0 <= j < n implies cong(p, #[trigger] left(j), mid(j)) by {
        let t = |i: int| rc[i] * vs[i][j];
        lemma_cong_mod(p, sum_of(m, t));
        lemma_cong_mul(p, c[j], sum_of(m, t), g[j], g[j]);
        lemma_sum_factor(m, g[j], t);
        assert(sum_of(m, t) * g[j] == g[j] * sum_of(m, t)) by (nonlinear_arith);
        let a = |i: int| g[j] * t(i);
        let b = |i: int| f(j, i);
        assert forall|i: int| 0 <= i < m implies #[trigger] a(i) == b(i) by {
            assert(g[j] * t(i) == t(i) * g[j]) by (nonlinear_arith);
        }
        lemma_sum_ext(m, a, b);
    }
    lemma_sum_of_cong(p, n, left, mid);
    lemma_sum_exchange(n, m, f);
    let swapped = |i: int| sum_of(n, |j: int| f(j, i));
    let right = |i: int| rc[i] * dot(vs[i], g);
    assert forall|i: int| 0 <= i < m implies #[trigger] swapped(i) == right(i) by {
        assert(vs[i].len() == n);
        lemma_dot_sum(vs[i], g, n);
        let t = |j: int| vs[i][j] * g[j];
        lemma_sum_factor(n, rc[i], t);
        let a = |j: int| rc[i] * t(j);
        let b = |j: int| f(j, i);
        assert forall|j: int| 0 <= j < n implies #[trigger] a(j) == b(j) by {
            assert(rc[i] * (vs[i][j] * g[j]) == rc[i] * vs[i][j] * g[j]) by (nonlinear_arith);
        }
        lemma_sum_ext(n, a, b);
    }
    lemma_sum_ext(m, swapped, right);
}

/// The value of a combination of tables at a point.
pub proof fn lemma_combine_mle(p: int, rc: Seq<int>, vs: Seq<Seq<int>>, y: Seq<int>)
    requires
        p > 0,
        uniform(vs, two_to(y.len())),
    ensures
        cong(
            p,
            mle(p, combine(p, rc, vs, two_to(y.len())), y),
            sum_of(vs.len(), |i: int| rc[i] * mle(p, vs[i], y)),
        ),
{
    let g = eq_table(y);
    lemma_combine_dot(p, rc, vs, g);
    lemma_mle_cong(p, combine(p, rc, vs, two_to(y.len())), y);
    let a = |i: int| rc[i] * dot(vs[i], g);
    let b = |i: int| rc[i] * mle(p, vs[i], y);
    assert forall|i: int| 0 <= i < vs.len() implies cong(p, #[trigger] a(i), b(i)) by {
        lemma_mle_cong(p, vs[i], y);
        lemma_cong_mul(p, rc[i], rc[i], dot(vs[i], g), mle(p, vs[i], y));
    }
    lemma_sum_of_cong(p, vs.len(), a, b);
}

/// Two tables one after the other give the line between their values.
pub proof fn lemma_join_dot(a: Seq<int>, b: Seq<int>, r: int, y: Seq<int>)
    requires
        a.len() == two_to(y.len()),
        b.len() == a.len(),
    ensures
        dot(a + b, eq_table(seq![r] + y)) == blend(dot(a, eq_table(y)), dot(b, eq_table(y)), r),
{
    let z = seq![r] + y;
    let n = two_to(y.len());
    let e = eq_table(y);
    assert(z.skip(1) =~= y);
    lemma_eq_table_high(z);
    let t = a + b;
    let all = Seq::new(2 * n, |i: int| t[i] * eq_table(z)[i]);
    let sa = Seq::new(n, |i: int| a[i] * e[i]);
    let sb = Seq::new(n, |i: int| b[i] * e[i]);
    let lo = Seq::new(sa.len(), |i: int| (1 - r) * sa[i]);
    let hi = Seq::new(sb.len(), |i: int| r * sb[i]);
    assert(all =~= lo + hi) by {
        assert forall|i: int| 0 <= i < 2 * n implies all[i] == (lo + hi)[i] by {
            if i < n {
                assert(eq_table(z)[i] == (1 - r) * e[i]);
                assert(a[i] * ((1 - r) * e[i]) == (1 - r) * (a[i] * e[i])) by (nonlinear_arith);
            } else {
                let k = i - n;
                assert(eq_table(z)[i] == r * e[k]);
                assert(b[k] * (r * e[k]) == r * (b[k] * e[k])) by (nonlinear_arith);
            }
        }
    }
    assert(dot(t, eq_table(z)) == sum(all));
    lemma_sum_concat(lo, hi);
    lemma_sum_scale(1 - r, sa);
    lemma_sum_scale(r, sb);
    assert(dot(a, e) == sum(sa));
    assert(dot(b, e) == sum(sb));
    assert((1 - r) * sum(sa) + r * sum(sb) == sum(sa) + (sum(sb) - sum(sa)) * r) by (nonlinear_arith);
}

/// A table that is repeated has the value of the table, whatever the point has in front.
pub proof fn lemma_repeated_front(t: Seq<int>, f: Seq<int>, y: Seq<int>)
    requires
        t.len() == two_to(y.len()),
    ensures
        dot(repeated(t, two_to(f.len() + y.len())), eq_table(f + y)) == dot(t, eq_table(y)),
    decreases f.len(),
{
    let n = f.len() + y.len();
    lemma_two_to_positive(y.len());
    if f.len() == 0 {
        assert(f + y =~= y);
        assert forall|i: int| 0 <= i < t.len() implies repeated(t, two_to(n))[i] == t[i] by {
            lemma_mod_small(t.len() as int, i);
        }
        assert(repeated(t, two_to(n)) =~= t);
    } else {
        let m = (n - 1) as nat;
        let g = f.skip(1);
        lemma_repeated_front(t, g, y);
        let z = g + y;
        assert(f + y =~= seq![f[0]] + z);
        let h = repeated(t, two_to(m));
        assert(two_to(n) == 2 * two_to(m));
        lemma_two_to_add((m - y.len()) as nat, y.len());
        let len = t.len() as int;
        let q = two_to((m - y.len()) as nat) as int;
        assert(two_to(m) == q * len);
        assert forall|i: int| 0 <= i < two_to(n) implies repeated(t, two_to(n))[i] == (h + h)[i] by {
            if i >= two_to(m) {
                let k = i - two_to(m);
                vstd::arithmetic::div_mod::lemma_mod_multiples_vanish(q, k, len);
                assert(len * q + k == i) by (nonlinear_arith)
                    requires
                        two_to(m) == q * len,
                        k == i - two_to(m),
                ;
            }
        }
        assert(repeated(t, two_to(n)) =~= h + h);
        assert(z.len() == m);
        lemma_join_dot(h, h, f[0], z);
        assert((dot(h, eq_table(z)) - dot(h, eq_table(z))) * f[0] == 0) by (nonlinear_arith);
    }
}

/// A table that is repeated has the value of the table, where the point has zeros in front.
pub proof fn lemma_repeated_dot(t: Seq<int>, y: Seq<int>, n: nat)
    requires
        t.len() == two_to(y.len()),
        y.len() <= n,
    ensures
        dot(repeated(t, two_to(n)), eq_table(leading(n, y))) == dot(t, eq_table(y)),
{
    let f = Seq::new((n - y.len()) as nat, |i: int| 0int);
    lemma_repeated_front(t, f, y);
    assert(leading(n, y) == f + y);
}

/// A table with its indices reversed has the same value at the reversed point.
pub proof fn lemma_reversed_dot(t: Seq<int>, y: Seq<int>)
    requires
        t.len() == two_to(y.len()),
    ensures
        dot(bit_reversed(t), eq_table(y.reverse())) == dot(t, eq_table(y)),
    decreases y.len(),
{
    let k = y.len();
    let b = bit_reversed(t);
    let e = eq_table(y.reverse());
    lemma_log2_two_to(k);
    if k == 0 {
        assert(y.reverse() =~= y);
        assert(two_to(0) == 1);
        assert(b =~= t);
    } else {
        let m = (k - 1) as nat;
        let n = two_to(m);
        let z = y.skip(1);
        let r = y[0];
        assert(two_to(k) == 2 * n);
        let lo = t.take(n as int);
        let hi = t.skip(n as int);
        lemma_log2_two_to(m);
        let bl = bit_reversed(lo);
        let bh = bit_reversed(hi);
        let ez = eq_table(z.reverse());
        assert(y.reverse().drop_last() =~= z.reverse());
        assert(y.reverse().last() == r);
        let all = Seq::new(2 * n, |i: int| b[i] * e[i]);
        assert(dot(b, e) == sum(all));
        lemma_sum_pairs(all, n);
        let sl = Seq::new(n, |i: int| bl[i] * ez[i]);
        let sh = Seq::new(n, |i: int| bh[i] * ez[i]);
        let wl = Seq::new(sl.len(), |i: int| (1 - r) * sl[i]);
        let wh = Seq::new(sh.len(), |i: int| r * sh[i]);
        let pairs = Seq::new(n, |i: int| all[2 * i] + all[2 * i + 1]);
        assert forall|i: int| 0 <= i < n implies pairs[i] == wl[i] + wh[i] by {
            lemma_reversed_bound(i as nat, m);
            let a = (2 * i) as nat;
            let c = (2 * i + 1) as nat;
            assert(a % 2 == 0 && a / 2 == i && c % 2 == 1 && c / 2 == i);
            assert(0 * two_to(m) == 0) by (nonlinear_arith);
            assert(1 * two_to(m) == two_to(m)) by (nonlinear_arith);
            assert(reversed(a, k) == reversed(i as nat, m));
            assert(reversed(c, k) == n + reversed(i as nat, m));
            assert(b[2 * i] == bl[i]);
            assert(b[2 * i + 1] == bh[i]);
            assert((2 * i) / 2 == i && (2 * i) % 2 == 0 && (2 * i + 1) / 2 == i && (2 * i + 1) % 2 == 1);
            assert(e[2 * i] == ez[i] * (1 - r));
            assert(e[2 * i + 1] == ez[i] * r);
            assert(bl[i] * (ez[i] * (1 - r)) == (1 - r) * (bl[i] * ez[i])) by (nonlinear_arith);
            assert(bh[i] * (ez[i] * r) == r * (bh[i] * ez[i])) by (nonlinear_arith);
        }
        assert(pairs =~= Seq::new(wl.len(), |i: int| wl[i] + wh[i]));
        lemma_sum_add(wl, wh);
        lemma_sum_scale(1 - r, sl);
        lemma_sum_scale(r, sh);
        assert(dot(bl, ez) == sum(sl));
        assert(dot(bh, ez) == sum(sh));
        lemma_reversed_dot(lo, z);
        lemma_reversed_dot(hi, z);
        lemma_join_dot(lo, hi, r, z);
        assert(lo + hi =~= t);
        assert(seq![r] + z =~= y);
        assert((1 - r) * sum(sl) + r * sum(sh) == sum(sl) + (sum(sh) - sum(sl)) * r) by (nonlinear_arith);
    }
}

/// A zero in front of a point leaves the basis polynomials of the small indices as they are.
pub proof fn lemma_eq_prod_zero(i: int, y: Seq<int>)
    requires
        0 <= i < two_to(y.len()),
    ensures
        eq_prod(i, seq![0] + y) == eq_prod(i, y),
{
    let z = seq![0int] + y;
    assert(z.skip(1) =~= y);
    assert(two_to(z.len()) == 2 * two_to(y.len()));
    lemma_eq_prod_high(i, z);
    assert((1 - 0) * eq_prod(i, y) == eq_prod(i, y)) by (nonlinear_arith);
}

/// The values of the tables at the point of a sum-check.
pub open spec fn mles(p: int, ts: Seq<Seq<int>>, y: Seq<int>) -> Seq<int> {
    Seq::new(ts.len(), |i: int| mle(p, ts[i], y))
}

/// After all rounds of a sum-check every table holds its value at the point.
pub proof fn lemma_rounds_end(sh: Shape, comb: Comb, tx: Tx, ts: Seq<Seq<int>>, vars: nat)
    requires
        sh.valid(),
        ts.len() > 0,
        uniform(ts, two_to(vars)),
        all_canonical(sh.p, ts),
    ensures
        ({
            let s = prove_rounds(sh, comb, tx, ts, vars);
            &&& extends(tx, s.tx)
            &&& s.point.len() == vars
            &&& canonical(sh.p, s.point)
            &&& s.tables.len() == ts.len()
            &&& forall|i: int| 0 <= i < ts.len() ==> (#[trigger] s.tables[i])[0] == mle(sh.p, ts[i], s.point)
            &&& total(comb, s.tables) == comb(mles(sh.p, ts, s.point))
        }),
{
    let s = prove_rounds(sh, comb, tx, ts, vars);
    lemma_prove_rounds_shape(sh, comb, tx, ts, vars, vars);
    assert(two_to(0) == 1);
    assert forall|i: int| 0 <= i < ts.len() implies (#[trigger] s.tables[i])[0] == mle(sh.p, ts[i], s.point) by {
        assert(s.tables[i] == bind(sh.p, ts[i], s.point));
        assert(ts[i].len() == two_to(vars));
        assert(canonical(sh.p, ts[i]));
        law_bind_evaluates(sh.p, ts[i], s.point);
    }
    assert(s.tables[0].len() == 1);
    let f = |k: int| comb(row(s.tables, k));
    lemma_sum_step(0, f);
    assert(row(s.tables, 0) =~= mles(sh.p, ts, s.point));
}

/// The value of a table whose entries are a fixed combination of those of three tables.
pub proof fn lemma_affine_value(
    p: int,
    g: int,
    d: int,
    k: int,
    a: Seq<int>,
    v: Seq<int>,
    t: Seq<int>,
    l: Seq<int>,
    y: Seq<int>,
)
    requires
        p > 0,
        l.len() == two_to(y.len()),
        a.len() == l.len(),
        v.len() == l.len(),
        t.len() == l.len(),
        forall|i: int| 0 <= i < l.len() ==> cong(p, #[trigger] l[i], a[i] + g * v[i] + d * t[i] + k),
    ensures
        ({
            let e = eq_table(y);
            cong(p, mle(p, l, y), dot(a, e) + g * dot(v, e) + d * dot(t, e) + k)
        }),
{
    let e = eq_table(y);
    let n = l.len();
    lemma_mle_cong(p, l, y);
    lemma_dot_sum(l, e, n);
    lemma_dot_sum(a, e, n);
    lemma_dot_sum(v, e, n);
    lemma_dot_sum(t, e, n);
    let fl = |i: int| l[i] * e[i];
    let fa = |i: int| a[i] * e[i];
    let fv = |i: int| v[i] * e[i];
    let ft = |i: int| t[i] * e[i];
    let fe = |i: int| e[i];
    let sa = Seq::new(n, fa);
    let sv = Seq::new(n, |i: int| g * fv(i));
    let st = Seq::new(n, |i: int| d * ft(i));
    let se = Seq::new(n, |i: int| k * fe(i));
    lemma_sum_factor(n, g, fv);
    lemma_sum_factor(n, d, ft);
    lemma_sum_factor(n, k, fe);
    crate::gkr::helper::law_eq_sum(y);
    assert(Seq::new(n, fe) =~= e);
    let s1 = Seq::new(sa.len(), |i: int| sa[i] + sv[i]);
    let s2 = Seq::new(s1.len(), |i: int| s1[i] + st[i]);
    let s3 = Seq::new(s2.len(), |i: int| s2[i] + se[i]);
    lemma_sum_add(sa, sv);
    lemma_sum_add(s1, st);
    lemma_sum_add(s2, se);
    let all = |i: int| s3[i];
    assert forall|i: int| 0 <= i < n implies cong(p, #[trigger] fl(i), all(i)) by {
        let x = a[i] + g * v[i] + d * t[i] + k;
        lemma_cong_mul(p, l[i], x, e[i], e[i]);
        let (ai, vi, ti, ei) = (a[i], v[i], t[i], e[i]);
        assert((ai + g * vi + d * ti + k) * ei == ai * ei + g * (vi * ei) + d * (ti * ei) + k * ei)
            by (nonlinear_arith);
    }
    lemma_sum_of_cong(p, n, fl, all);
    assert(Seq::new(n, all) =~= s3);
    assert(k * 1 == k);
}

} // verus!
