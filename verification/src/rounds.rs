//! The sum-check protocol, for any polynomial in the values of multilinear tables.
use vstd::prelude::*;
use crate::algebra::{
    canonical, cong, cong_seq, lemma_canonical_unique, lemma_cong_add, lemma_cong_mod,
    lemma_cong_mul, lemma_cong_multiple, lemma_cong_witness, lemma_halve, lemma_mod_canonical,
    lemma_mod_small, lemma_third, two_to,
};
use crate::brakingbase_helper::{eval, fold_by_msb, lemma_poly_at_3, len_3_interpolate, line_at};
use crate::error::{Error, outcome};
use crate::field::{PrimeField, lemma_vals_canonical, vals, vals2};
use crate::gkr::helper::{
    lemma_cubic_values, lemma_vals_reverse, len_4_interpolate, reverse_elements,
};
use crate::multilinear::{bind_all, fold, fold_all, lemma_fold_canonical, line, poly_at};
use crate::sums::{lemma_sum_cong, lemma_sum_concat, lemma_sum_step, sum_of};
use crate::transcript::{
    Check, Event, Oracle, TranscriptRead, TranscriptWrite, Tx, checking, law_read_all_written,
    law_same_challenge, oracle_reduced, read_field_elements, synced, write_field_elements,
};

verus! {

/// A polynomial in the values of some tables.
pub type Comb = spec_fn(Seq<int>) -> int;

/// The values at `x` of the lines of all tables for the index `k`.
pub open spec fn lines(ts: Seq<Seq<int>>, k: int, x: int) -> Seq<int> {
    Seq::new(ts.len(), |i: int| line(ts[i], k, x))
}

/// The entries of all tables at the index `k`.
pub open spec fn row(ts: Seq<Seq<int>>, k: int) -> Seq<int> {
    Seq::new(ts.len(), |i: int| ts[i][k])
}

/// The sum over the indices below `n` with the first variable set to `x`.
pub open spec fn round_sum(comb: Comb, ts: Seq<Seq<int>>, x: int, n: nat) -> int {
    sum_of(n, |k: int| comb(lines(ts, k, x)))
}

/// The sum over half of the hypercube with the first variable set to `x`.
pub open spec fn round_at(comb: Comb, ts: Seq<Seq<int>>, x: int) -> int {
    round_sum(comb, ts, x, ts[0].len() / 2)
}

/// The sum over the whole hypercube.
pub open spec fn total(comb: Comb, ts: Seq<Seq<int>>) -> int {
    sum_of(ts[0].len(), |k: int| comb(row(ts, k)))
}

/// `c` holds the coefficients of the univariate polynomial of a round.
pub open spec fn is_round_poly(p: int, degree: nat, comb: Comb, ts: Seq<Seq<int>>, c: Seq<int>) -> bool {
    &&& c.len() == degree + 1
    &&& canonical(p, c)
    &&& forall|x: int| cong(p, #[trigger] poly_at(c, x), round_at(comb, ts, x))
}

/// The univariate polynomial of a round.
pub open spec fn round_poly(p: int, degree: nat, comb: Comb, ts: Seq<Seq<int>>) -> Seq<int> {
    choose|c: Seq<int>| is_round_poly(p, degree, comb, ts, c)
}

/// The parameters of a sum-check: the modulus, the source of challenges, the degree of the round
/// polynomials, and whether these are sent with the highest coefficient first.
pub struct Shape {
    pub p: int,
    pub ch: Oracle,
    pub degree: nat,
    pub descending: bool,
}

impl Shape {
    /// The coefficients in the order in which they are sent; also the other way round.
    pub open spec fn ordered(self, c: Seq<int>) -> Seq<int> {
        if self.descending {
            c.reverse()
        } else {
            c
        }
    }

    pub open spec fn valid(self) -> bool {
        &&& self.p > 6
        &&& self.p % 2 == 1
        &&& self.p % 3 != 0
        &&& self.degree == 2 || self.degree == 3
        &&& oracle_reduced(self.p, self.ch)
    }
}

/// Where a prover stands in a sum-check.
pub struct Proving {
    pub tx: Tx,
    pub point: Seq<int>,
    pub tables: Seq<Seq<int>>,
}

/// One round: send the polynomial, draw a challenge, and bind the first variable to it.
pub open spec fn prove_round(sh: Shape, comb: Comb, s: Proving) -> Proving {
    let tx = s.tx.write_all(sh.ordered(round_poly(sh.p, sh.degree, comb, s.tables)));
    let r = (sh.ch)(tx.hist);
    Proving {
        tx: tx.squeeze(),
        point: s.point.push(r),
        tables: fold_all(sh.p, s.tables, r),
    }
}

pub open spec fn prove_rounds(sh: Shape, comb: Comb, tx: Tx, ts: Seq<Seq<int>>, n: nat) -> Proving
    decreases n,
{
    if n == 0 {
        Proving { tx, point: Seq::empty(), tables: ts }
    } else {
        prove_round(sh, comb, prove_rounds(sh, comb, tx, ts, (n - 1) as nat))
    }
}

/// Where a verifier stands in a sum-check.
pub struct Claiming {
    pub check: Check,
    pub claim: int,
    pub point: Seq<int>,
}

/// One round: the polynomial adds up to the claim, and its value at a challenge is the next one.
pub open spec fn check_round(sh: Shape, s: Claiming) -> Claiming {
    let (c1, sent) = s.check.read_many(sh.degree + 1);
    let c = sh.ordered(sent);
    let c2 = c1.require(cong(sh.p, poly_at(c, 0) + poly_at(c, 1), s.claim), Error::SumCheck);
    let (c3, r) = c2.squeeze(sh.ch);
    Claiming { check: c3, claim: poly_at(c, r) % sh.p, point: s.point.push(r) }
}

pub open spec fn check_rounds(sh: Shape, check: Check, claim: int, n: nat) -> Claiming
    decreases n,
{
    if n == 0 {
        Claiming { check, claim, point: Seq::empty() }
    } else {
        check_round(sh, check_rounds(sh, check, claim, (n - 1) as nat))
    }
}

/// `u + v * x`, entry by entry.
pub open spec fn affine(u: Seq<int>, v: Seq<int>, x: int) -> Seq<int> {
    Seq::new(u.len(), |i: int| u[i] + v[i] * x)
}

/// Along the line `u + v * x` the polynomial `comb` has the coefficients `g`.
pub open spec fn is_along(comb: Comb, u: Seq<int>, v: Seq<int>, degree: nat, g: Seq<int>) -> bool {
    &&& g.len() == degree + 1
    &&& forall|x: int| #[trigger] poly_at(g, x) == comb(affine(u, v, x))
}

/// Along the line `u + v * x` the polynomial `comb` has at most the given degree.
pub open spec fn degree_along(comb: Comb, u: Seq<int>, v: Seq<int>, degree: nat) -> bool {
    exists|g: Seq<int>| is_along(comb, u, v, degree, g)
}

/// Along every line `comb` is a polynomial of at most the given degree.
pub open spec fn has_degree(comb: Comb, arity: nat, degree: nat) -> bool {
    forall|u: Seq<int>, v: Seq<int>|
        u.len() == arity && v.len() == arity ==> #[trigger] degree_along(comb, u, v, degree)
}

/// Congruent arguments give congruent values.
pub open spec fn respects(p: int, comb: Comb, arity: nat) -> bool {
    forall|a: Seq<int>, b: Seq<int>|
        a.len() == arity && #[trigger] cong_seq(p, a, b) ==> cong(p, comb(a), comb(b))
}

/// All tables have the length `n`.
pub open spec fn uniform(ts: Seq<Seq<int>>, n: nat) -> bool {
    forall|i: int| 0 <= i < ts.len() ==> (#[trigger] ts[i]).len() == n
}

/// All entries of all tables are reduced.
pub open spec fn all_canonical(p: int, ts: Seq<Seq<int>>) -> bool {
    forall|i: int| 0 <= i < ts.len() ==> canonical(p, #[trigger] ts[i])
}

pub proof fn lemma_poly_add(a: Seq<int>, b: Seq<int>, x: int)
    requires
        a.len() == b.len(),
    ensures
        poly_at(Seq::new(a.len(), |i: int| a[i] + b[i]), x) == poly_at(a, x) + poly_at(b, x),
    decreases a.len(),
{
    let c = Seq::new(a.len(), |i: int| a[i] + b[i]);
    if a.len() > 0 {
        let (a1, b1) = (a.skip(1), b.skip(1));
        lemma_poly_add(a1, b1, x);
        assert(c.skip(1) =~= Seq::new(a1.len(), |i: int| a1[i] + b1[i]));
        let (u, v) = (poly_at(a1, x), poly_at(b1, x));
        assert(x * (u + v) == x * u + x * v) by (nonlinear_arith);
    }
}

pub proof fn lemma_poly_zero(n: nat, x: int)
    ensures
        poly_at(Seq::new(n, |i: int| 0int), x) == 0,
    decreases n,
{
    let c = Seq::new(n, |i: int| 0int);
    if n > 0 {
        lemma_poly_zero((n - 1) as nat, x);
        assert(c.skip(1) =~= Seq::new((n - 1) as nat, |i: int| 0int));
        assert(x * 0 == 0) by (nonlinear_arith);
    }
}

pub proof fn lemma_poly_cong(p: int, a: Seq<int>, b: Seq<int>, x: int, y: int)
    requires
        p > 0,
        cong_seq(p, a, b),
        cong(p, x, y),
    ensures
        cong(p, poly_at(a, x), poly_at(b, y)),
    decreases a.len(),
{
    if a.len() > 0 {
        let (a1, b1) = (a.skip(1), b.skip(1));
        assert forall|i: int| 0 <= i < a1.len() implies cong(p, #[trigger] a1[i], b1[i]) by {
            assert(cong(p, a[i + 1], b[i + 1]));
        }
        lemma_poly_cong(p, a1, b1, x, y);
        lemma_cong_mul(p, x, y, poly_at(a1, x), poly_at(b1, y));
        assert(cong(p, a[0], b[0]));
        lemma_cong_add(p, a[0], b[0], x * poly_at(a1, x), y * poly_at(b1, y));
    }
}

/// Values at 0, 1 and 2, and at -1 for a cubic, fix the coefficients.
proof fn lemma_coefficients(p: int, a: Seq<int>, b: Seq<int>)
    requires
        p > 0,
        p % 2 == 1,
        p % 3 != 0,
        a.len() == b.len(),
        a.len() == 3 || a.len() == 4,
        cong(p, poly_at(a, 0), poly_at(b, 0)),
        cong(p, poly_at(a, 1), poly_at(b, 1)),
        cong(p, poly_at(a, 2), poly_at(b, 2)),
        a.len() == 4 ==> cong(p, poly_at(a, -1), poly_at(b, -1)),
    ensures
        cong_seq(p, a, b),
{
    let k0 = lemma_cong_witness(p, poly_at(a, 0), poly_at(b, 0));
    let k1 = lemma_cong_witness(p, poly_at(a, 1), poly_at(b, 1));
    let k2 = lemma_cong_witness(p, poly_at(a, 2), poly_at(b, 2));
    let (e0, e1, e2) = (a[0] - b[0], a[1] - b[1], a[2] - b[2]);
    if a.len() == 3 {
        lemma_poly_at_3(a, 0);
        lemma_poly_at_3(b, 0);
        lemma_poly_at_3(a, 1);
        lemma_poly_at_3(b, 1);
        lemma_poly_at_3(a, 2);
        lemma_poly_at_3(b, 2);
        assert(e0 == k0 * p);
        assert(e0 + e1 + e2 == k1 * p);
        assert(e0 + 2 * e1 + 4 * e2 == k2 * p);
        assert(2 * e2 == 0 + (k2 - 2 * k1 + k0) * p) by (nonlinear_arith)
            requires
                e0 == k0 * p,
                e0 + e1 + e2 == k1 * p,
                e0 + 2 * e1 + 4 * e2 == k2 * p,
        ;
        lemma_cong_multiple(p, 2 * e2, 0, k2 - 2 * k1 + k0);
        lemma_halve(p, e2);
        let m2 = lemma_cong_witness(p, e2, 0);
        assert(e1 == 0 + (k1 - k0 - m2) * p) by (nonlinear_arith)
            requires
                e0 == k0 * p,
                e0 + e1 + e2 == k1 * p,
                e2 == m2 * p,
        ;
        lemma_cong_multiple(p, a[0], b[0], k0);
        lemma_cong_multiple(p, a[1], b[1], k1 - k0 - m2);
        lemma_cong_multiple(p, a[2], b[2], m2);
    } else {
        lemma_cubic_values(a);
        lemma_cubic_values(b);
        let km = lemma_cong_witness(p, poly_at(a, -1), poly_at(b, -1));
        let e3 = a[3] - b[3];
        assert(e0 == k0 * p);
        assert(e0 + e1 + e2 + e3 == k1 * p);
        assert(e0 - e1 + e2 - e3 == km * p);
        assert(e0 + 2 * e1 + 4 * e2 + 8 * e3 == k2 * p);
        assert(2 * e2 == 0 + (k1 + km - 2 * k0) * p) by (nonlinear_arith)
            requires
                e0 == k0 * p,
                e0 + e1 + e2 + e3 == k1 * p,
                e0 - e1 + e2 - e3 == km * p,
        ;
        lemma_cong_multiple(p, 2 * e2, 0, k1 + km - 2 * k0);
        lemma_halve(p, e2);
        let m2 = lemma_cong_witness(p, e2, 0);
        let q = k2 - 2 * k1 + k0 - 2 * m2;
        assert(2 * (3 * e3) == 0 + q * p) by (nonlinear_arith)
            requires
                e0 == k0 * p,
                e0 + e1 + e2 + e3 == k1 * p,
                e0 + 2 * e1 + 4 * e2 + 8 * e3 == k2 * p,
                e2 == m2 * p,
                q == k2 - 2 * k1 + k0 - 2 * m2,
        ;
        lemma_cong_multiple(p, 2 * (3 * e3), 0, q);
        lemma_halve(p, 3 * e3);
        lemma_third(p, e3);
        let m3 = lemma_cong_witness(p, e3, 0);
        assert(e1 == 0 + (k1 - k0 - m2 - m3) * p) by (nonlinear_arith)
            requires
                e0 == k0 * p,
                e0 + e1 + e2 + e3 == k1 * p,
                e2 == m2 * p,
                e3 == m3 * p,
        ;
        lemma_cong_multiple(p, a[0], b[0], k0);
        lemma_cong_multiple(p, a[1], b[1], k1 - k0 - m2 - m3);
        lemma_cong_multiple(p, a[2], b[2], m2);
        lemma_cong_multiple(p, a[3], b[3], m3);
    }
}

/// The sum of a round is a polynomial in the value of the first variable.
proof fn lemma_round_sum_poly(comb: Comb, ts: Seq<Seq<int>>, degree: nat, n: nat) -> (g: Seq<int>)
    requires
        has_degree(comb, ts.len(), degree),
    ensures
        g.len() == degree + 1,
        forall|x: int| #[trigger] poly_at(g, x) == round_sum(comb, ts, x, n),
    decreases n,
{
    if n == 0 {
        let g = Seq::new(degree + 1, |i: int| 0int);
        assert forall|x: int| #[trigger] poly_at(g, x) == round_sum(comb, ts, x, n) by {
            lemma_poly_zero(degree + 1, x);
            lemma_sum_step(0, |k: int| comb(lines(ts, k, x)));
        }
        g
    } else {
        let k = n - 1;
        let a = lemma_round_sum_poly(comb, ts, degree, k as nat);
        let u = Seq::new(ts.len(), |i: int| ts[i][k]);
        let v = Seq::new(ts.len(), |i: int| ts[i][k + ts[i].len() / 2] - ts[i][k]);
        assert(degree_along(comb, u, v, degree));
        let b = choose|g: Seq<int>| is_along(comb, u, v, degree, g);
        assert(is_along(comb, u, v, degree, b));
        let g = Seq::new(degree + 1, |i: int| a[i] + b[i]);
        assert forall|x: int| #[trigger] poly_at(g, x) == round_sum(comb, ts, x, n) by {
            lemma_poly_add(a, b, x);
            assert(g =~= Seq::new(a.len(), |i: int| a[i] + b[i]));
            lemma_sum_step(k as nat, |k: int| comb(lines(ts, k, x)));
            assert(affine(u, v, x) =~= lines(ts, k, x));
            assert(poly_at(a, x) == round_sum(comb, ts, x, k as nat));
            assert(poly_at(b, x) == comb(affine(u, v, x)));
        }
        g
    }
}

/// A polynomial with the right values at a few points is the polynomial of the round.
pub proof fn lemma_round_poly(p: int, degree: nat, comb: Comb, ts: Seq<Seq<int>>, c: Seq<int>)
    requires
        p > 0,
        p % 2 == 1,
        p % 3 != 0,
        degree == 2 || degree == 3,
        has_degree(comb, ts.len(), degree),
        c.len() == degree + 1,
        canonical(p, c),
        cong(p, poly_at(c, 0), round_at(comb, ts, 0)),
        cong(p, poly_at(c, 1), round_at(comb, ts, 1)),
        cong(p, poly_at(c, 2), round_at(comb, ts, 2)),
        degree == 3 ==> cong(p, poly_at(c, -1), round_at(comb, ts, -1)),
    ensures
        is_round_poly(p, degree, comb, ts, c),
        c == round_poly(p, degree, comb, ts),
{
    let g = lemma_round_sum_poly(comb, ts, degree, ts[0].len() / 2);
    assert(poly_at(g, 0) == round_at(comb, ts, 0));
    assert(poly_at(g, 1) == round_at(comb, ts, 1));
    assert(poly_at(g, 2) == round_at(comb, ts, 2));
    assert(poly_at(g, -1) == round_at(comb, ts, -1));
    lemma_coefficients(p, c, g);
    assert forall|x: int| cong(p, #[trigger] poly_at(c, x), round_at(comb, ts, x)) by {
        lemma_poly_cong(p, c, g, x, x);
        assert(poly_at(g, x) == round_at(comb, ts, x));
    }
    assert(is_round_poly(p, degree, comb, ts, c));
    let d = round_poly(p, degree, comb, ts);
    assert(is_round_poly(p, degree, comb, ts, d));
    assert(cong(p, poly_at(d, 0), round_at(comb, ts, 0)));
    assert(cong(p, poly_at(d, 1), round_at(comb, ts, 1)));
    assert(cong(p, poly_at(d, 2), round_at(comb, ts, 2)));
    assert(cong(p, poly_at(d, -1), round_at(comb, ts, -1)));
    lemma_coefficients(p, c, d);
    assert forall|i: int| 0 <= i < c.len() implies c[i] == d[i] by {
        assert(cong(p, c[i], d[i]));
        assert(0 <= c[i] < p);
        assert(0 <= d[i] < p);
        lemma_canonical_unique(p, c[i], d[i]);
    }
    assert(c =~= d);
}

/// There is a polynomial for every round.
pub proof fn lemma_round_poly_exists(p: int, degree: nat, comb: Comb, ts: Seq<Seq<int>>)
    requires
        p > 0,
        has_degree(comb, ts.len(), degree),
    ensures
        is_round_poly(p, degree, comb, ts, round_poly(p, degree, comb, ts)),
{
    let g = lemma_round_sum_poly(comb, ts, degree, ts[0].len() / 2);
    let c = Seq::new(degree + 1, |i: int| g[i] % p);
    assert forall|i: int| 0 <= i < c.len() implies 0 <= #[trigger] c[i] < p by {
        lemma_mod_canonical(p, g[i]);
    }
    assert forall|i: int| 0 <= i < c.len() implies cong(p, #[trigger] c[i], g[i]) by {
        lemma_cong_mod(p, g[i]);
    }
    assert(cong_seq(p, c, g));
    assert forall|x: int| cong(p, #[trigger] poly_at(c, x), round_at(comb, ts, x)) by {
        lemma_poly_cong(p, c, g, x, x);
        assert(poly_at(g, x) == round_at(comb, ts, x));
    }
    assert(is_round_poly(p, degree, comb, ts, c));
}

/// A polynomial in the values of tables that can be computed.
pub trait Combiner<F: PrimeField> {
    spec fn comb(&self) -> Comb;

    spec fn arity(&self) -> nat;

    spec fn degree(&self) -> nat;

    proof fn lemma_combiner(&self)
        ensures
            self.degree() == 2 || self.degree() == 3,
            has_degree(self.comb(), self.arity(), self.degree()),
            respects(F::modulus(), self.comb(), self.arity()),
    ;

    fn combine(&self, values: &Vec<F>) -> (r: F)
        requires
            values@.len() == self.arity(),
        ensures
            r.value() == self.comb()(vals(values@)) % F::modulus(),
    ;

    fn is_cubic(&self) -> (r: bool)
        ensures
            r == (self.degree() == 3),
    ;
}

/// The sum of a round with the first variable set to `x`.
fn round_value<F: PrimeField, C: Combiner<F>>(tables: &Vec<Vec<F>>, combiner: &C, x: F) -> (r: F)
    requires
        tables@.len() == combiner.arity(),
        tables@.len() > 0,
        uniform(vals2(tables@), tables@[0]@.len()),
    ensures
        r.value() == round_at(combiner.comb(), vals2(tables@), x.value()) % F::modulus(),
{
    let ghost p = F::modulus();
    let ghost ts = vals2(tables@);
    let ghost comb = combiner.comb();
    let size = tables[0].len();
    let half: usize = size / 2;
    let mut acc = F::zero();
    let mut k: usize = 0;
    let ghost f = |k: int| comb(lines(ts, k, x.value()));
    proof {
        F::lemma_modulus();
        combiner.lemma_combiner();
        lemma_mod_small(p, 0);
        lemma_sum_step(0, f);
        assert(ts[0].len() == tables@[0]@.len());
    }
    while k < half
        invariant
            k <= half,
            half == size / 2,
            size == tables@[0]@.len(),
            tables@.len() == combiner.arity(),
            tables@.len() > 0,
            p == F::modulus(),
            p > 6,
            ts == vals2(tables@),
            comb == combiner.comb(),
            uniform(ts, size as nat),
            respects(p, comb, combiner.arity()),
            f == (|k: int| comb(lines(ts, k, x.value()))),
            acc.value() == sum_of(k as nat, f) % p,
        decreases half - k,
    {
        let mut values: Vec<F> = Vec::new();
        let mut i: usize = 0;
        while i < tables.len()
            invariant
                i <= tables@.len(),
                k < half,
                half == size / 2,
                ts == vals2(tables@),
                uniform(ts, size as nat),
                p == F::modulus(),
                values@.len() == i,
                forall|j: int| 0 <= j < i ==> #[trigger] values@[j].value() == line(
                    ts[j],
                    k as int,
                    x.value(),
                ) % p,
            decreases tables@.len() - i,
        {
            assert(ts[i as int].len() == size);
            assert(ts[i as int] == vals(tables@[i as int]@));
            values.push(line_at(tables[i][k], tables[i][k + half], x));
            i += 1;
        }
        let v = combiner.combine(&values);
        let next = acc.add(v);
        proof {
            let l = lines(ts, k as int, x.value());
            assert forall|j: int| 0 <= j < l.len() implies cong(p, #[trigger] vals(values@)[j], l[j]) by {
                lemma_cong_mod(p, l[j]);
            }
            assert(cong_seq(p, vals(values@), l));
            lemma_sum_step(k as nat, f);
            assert(v.value() == comb(l) % p);
            vstd::arithmetic::div_mod::lemma_add_mod_noop(sum_of(k as nat, f), comb(l), p);
        }
        acc = next;
        k += 1;
    }
    acc
}

/// The coefficients of the polynomial of a round.
fn round_coefficients<F: PrimeField, C: Combiner<F>>(tables: &Vec<Vec<F>>, combiner: &C) -> (r: Vec<
    F,
>)
    requires
        tables@.len() == combiner.arity(),
        tables@.len() > 0,
        uniform(vals2(tables@), tables@[0]@.len()),
    ensures
        vals(r@) == round_poly(F::modulus(), combiner.degree(), combiner.comb(), vals2(tables@)),
        r@.len() == combiner.degree() + 1,
{
    let ghost p = F::modulus();
    let ghost ts = vals2(tables@);
    let ghost comb = combiner.comb();
    proof {
        F::lemma_modulus();
        combiner.lemma_combiner();
        lemma_mod_small(p, 0);
        lemma_mod_small(p, 1);
        lemma_mod_small(p, 2);
    }
    let a0 = round_value(tables, combiner, F::zero());
    let a1 = round_value(tables, combiner, F::one());
    let a2 = round_value(tables, combiner, F::from_u64(2));
    proof {
        lemma_cong_mod(p, round_at(comb, ts, 0));
        lemma_cong_mod(p, round_at(comb, ts, 1));
        lemma_cong_mod(p, round_at(comb, ts, 2));
    }
    if combiner.is_cubic() {
        let minus = F::one().neg();
        let am = round_value(tables, combiner, minus);
        let mut e: [F; 4] = [a0, a1, am, a2];
        len_4_interpolate(&mut e);
        let mut r: Vec<F> = Vec::new();
        r.push(e[0]);
        r.push(e[1]);
        r.push(e[2]);
        r.push(e[3]);
        proof {
            assert(vals(r@) =~= vals(e@));
            lemma_vals_canonical(r@);
            let c = vals(r@);
            let g = lemma_round_sum_poly(comb, ts, 3, ts[0].len() / 2);
            let m = minus.value();
            assert(poly_at(g, m) == round_at(comb, ts, m));
            assert(poly_at(g, -1) == round_at(comb, ts, -1));
            lemma_cong_mod(p, -1);
            assert(cong_seq(p, g, g));
            lemma_poly_cong(p, g, g, m, -1);
            lemma_cong_mod(p, round_at(comb, ts, m));
            lemma_cong_of_mod(p, poly_at(c, -1), am.value());
            lemma_cong_of_mod(p, poly_at(c, 0), a0.value());
            lemma_cong_of_mod(p, poly_at(c, 1), a1.value());
            lemma_cong_of_mod(p, poly_at(c, 2), a2.value());
            lemma_round_poly(p, 3, comb, ts, c);
        }
        r
    } else {
        let mut r: Vec<F> = Vec::new();
        r.push(a0);
        r.push(a1);
        r.push(a2);
        let ghost before = r@;
        len_3_interpolate(&mut r);
        proof {
            lemma_vals_canonical(r@);
            let c = vals(r@);
            assert(c.take(3) =~= c);
            assert(poly_at(c, 0) % p == before[0].value());
            assert(poly_at(c, 1) % p == before[1].value());
            assert(poly_at(c, 2) % p == before[2].value());
            lemma_cong_of_mod(p, poly_at(c, 0), a0.value());
            lemma_cong_of_mod(p, poly_at(c, 1), a1.value());
            lemma_cong_of_mod(p, poly_at(c, 2), a2.value());
            lemma_round_poly(p, 2, comb, ts, c);
        }
        r
    }
}

proof fn lemma_cong_of_mod(p: int, a: int, b: int)
    requires
        p > 0,
        a % p == b,
    ensures
        cong(p, a, b),
{
    lemma_cong_mod(p, a);
}

/// Binds the first variable of every table to `r`.
pub fn fold_tables<F: PrimeField>(tables: &Vec<Vec<F>>, r: F) -> (folded: Vec<Vec<F>>)
    ensures
        vals2(folded@) == fold_all(F::modulus(), vals2(tables@), r.value()),
{
    let mut folded: Vec<Vec<F>> = Vec::new();
    let mut i: usize = 0;
    let ghost p = F::modulus();
    while i < tables.len()
        invariant
            i <= tables@.len(),
            p == F::modulus(),
            folded@.len() == i,
            forall|j: int| 0 <= j < i ==> vals(#[trigger] folded@[j]@) == fold(
                p,
                vals(tables@[j]@),
                r.value(),
            ),
        decreases tables@.len() - i,
    {
        folded.push(fold_by_msb(&tables[i], r));
        i += 1;
    }
    assert(vals2(folded@) =~= fold_all(p, vals2(tables@), r.value()));
    folded
}

/// One round of the prover. Returns the challenge.
pub fn sum_check_round<F: PrimeField, C: Combiner<F>, T: TranscriptWrite<F>>(
    tables: &mut Vec<Vec<F>>,
    combiner: &C,
    descending: bool,
    transcript: &mut T,
) -> (r: F)
    requires
        old(tables)@.len() == combiner.arity(),
        old(tables)@.len() > 0,
        uniform(vals2(old(tables)@), old(tables)@[0]@.len()),
    ensures
        ({
            let sh = Shape {
                p: F::modulus(),
                ch: T::oracle(),
                degree: combiner.degree(),
                descending,
            };
            forall|point: Seq<int>|
                prove_round(
                    sh,
                    combiner.comb(),
                    Proving { tx: old(transcript).tx(), point, tables: vals2(old(tables)@) },
                ) == (Proving {
                    tx: final(transcript).tx(),
                    point: #[trigger] point.push(r.value()),
                    tables: vals2(final(tables)@),
                })
        }),
        final(tables)@.len() == old(tables)@.len(),
        uniform(vals2(final(tables)@), old(tables)@[0]@.len() / 2),
{
    let coefficients = round_coefficients(tables, combiner);
    let ghost before = vals2(tables@);
    if descending {
        let reversed = reverse_elements(&coefficients);
        proof {
            lemma_vals_reverse(coefficients@);
        }
        write_field_elements(transcript, &reversed);
    } else {
        write_field_elements(transcript, &coefficients);
    }
    let r = transcript.squeeze_challenge();
    let folded = fold_tables(tables, r);
    *tables = folded;
    proof {
        assert(vals2(tables@).len() == tables@.len());
        assert forall|i: int| 0 <= i < vals2(tables@).len() implies (#[trigger] vals2(tables@)[i]).len()
            == old(tables)@[0]@.len() / 2 by {
            assert(vals2(tables@)[i] == fold(F::modulus(), before[i], r.value()));
            assert(before[i].len() == old(tables)@[0]@.len());
        }
    }
    r
}

/// `rounds` rounds of the prover. Returns the challenges.
pub fn sum_check_prove<F: PrimeField, C: Combiner<F>, T: TranscriptWrite<F>>(
    tables: &mut Vec<Vec<F>>,
    combiner: &C,
    descending: bool,
    rounds: usize,
    transcript: &mut T,
) -> (point: Vec<F>)
    requires
        old(tables)@.len() == combiner.arity(),
        old(tables)@.len() > 0,
        uniform(vals2(old(tables)@), old(tables)@[0]@.len()),
    ensures
        ({
            let sh = Shape {
                p: F::modulus(),
                ch: T::oracle(),
                degree: combiner.degree(),
                descending,
            };
            prove_rounds(
                sh,
                combiner.comb(),
                old(transcript).tx(),
                vals2(old(tables)@),
                rounds as nat,
            ) == (Proving {
                tx: final(transcript).tx(),
                point: vals(point@),
                tables: vals2(final(tables)@),
            })
        }),
        final(tables)@.len() == old(tables)@.len(),
        point@.len() == rounds,
{
    let mut point: Vec<F> = Vec::new();
    let mut i: usize = 0;
    let ghost sh = Shape { p: F::modulus(), ch: T::oracle(), degree: combiner.degree(), descending };
    let ghost comb = combiner.comb();
    let ghost tx = transcript.tx();
    let ghost ts = vals2(tables@);
    let ghost mut size = tables@[0]@.len();
    assert(vals(point@) =~= Seq::empty());
    while i < rounds
        invariant
            i <= rounds,
            sh == (Shape {
                p: F::modulus(),
                ch: T::oracle(),
                degree: combiner.degree(),
                descending,
            }),
            comb == combiner.comb(),
            tx == old(transcript).tx(),
            ts == vals2(old(tables)@),
            tables@.len() == old(tables)@.len(),
            tables@.len() == combiner.arity(),
            tables@.len() > 0,
            size == tables@[0]@.len(),
            uniform(vals2(tables@), size),
            point@.len() == i,
            prove_rounds(sh, comb, tx, ts, i as nat) == (Proving {
                tx: transcript.tx(),
                point: vals(point@),
                tables: vals2(tables@),
            }),
        decreases rounds - i,
    {
        let ghost before = point@;
        let r = sum_check_round(tables, combiner, descending, transcript);
        point.push(r);
        proof {
            assert(vals(point@) =~= vals(before).push(r.value()));
            assert(vals2(tables@)[0].len() == size / 2);
            size = size / 2;
        }
        i += 1;
    }
    point
}

/// A check that has failed stays as it is.
pub proof fn lemma_check_rounds_failed(sh: Shape, check: Check, claim: int, n: nat, m: nat)
    requires
        check_rounds(sh, check, claim, n).check.err is Some,
        n <= m,
    ensures
        check_rounds(sh, check, claim, m).check == check_rounds(sh, check, claim, n).check,
    decreases m,
{
    if n < m {
        lemma_check_rounds_failed(sh, check, claim, n, (m - 1) as nat);
        let s = check_rounds(sh, check, claim, (m - 1) as nat);
        crate::transcript::lemma_read_many_failed(s.check, 0, sh.degree + 1);
    }
}

/// `rounds` rounds of the verifier. Returns the last claim and the challenges.
pub fn sum_check_verify<F: PrimeField, T: TranscriptRead<F>>(
    claim: F,
    degree: usize,
    descending: bool,
    rounds: usize,
    transcript: &mut T,
) -> (res: Result<(F, Vec<F>), Error>)
    requires
        degree < usize::MAX,
    ensures
        ({
            let sh = Shape { p: F::modulus(), ch: T::oracle(), degree: degree as nat, descending };
            let s = check_rounds(sh, checking(old(transcript).rx()), claim.value(), rounds as nat);
            &&& final(transcript).rx() == s.check.rx
            &&& outcome(res, s.check.err)
            &&& res matches Ok(x) ==> x.0.value() == s.claim && vals(x.1@) == s.point
                && x.1@.len() == rounds
        }),
{
    let ghost p = F::modulus();
    let ghost sh = Shape { p: F::modulus(), ch: T::oracle(), degree: degree as nat, descending };
    let ghost check = checking(transcript.rx());
    let mut point: Vec<F> = Vec::new();
    let mut current = claim;
    let mut i: usize = 0;
    assert(vals(point@) =~= Seq::empty());
    while i < rounds
        invariant
            i <= rounds,
            degree < usize::MAX,
            p == F::modulus(),
            sh == (Shape { p: F::modulus(), ch: T::oracle(), degree: degree as nat, descending }),
            check == checking(old(transcript).rx()),
            point@.len() == i,
            check_rounds(sh, check, claim.value(), i as nat) == (Claiming {
                check: checking(transcript.rx()),
                claim: current.value(),
                point: vals(point@),
            }),
        decreases rounds - i,
    {
        let ghost s = check_rounds(sh, check, claim.value(), i as nat);
        let sent = match read_field_elements::<F, T>(transcript, degree + 1) {
            Ok(sent) => sent,
            Err(e) => {
                proof {
                    lemma_check_rounds_failed(sh, check, claim.value(), (i + 1) as nat, rounds as nat);
                }
                return Err(e);
            },
        };
        let poly = if descending {
            proof {
                lemma_vals_reverse(sent@);
            }
            reverse_elements(&sent)
        } else {
            sent
        };
        let at0 = eval(&poly, F::zero());
        let at1 = eval(&poly, F::one());
        let both = at0.add(at1);
        proof {
            F::lemma_modulus();
            let c = vals(poly@);
            vstd::arithmetic::div_mod::lemma_add_mod_noop(poly_at(c, 0), poly_at(c, 1), p);
            current.lemma_value();
            lemma_mod_small(p, current.value());
        }
        if !both.equals(current) {
            proof {
                lemma_check_rounds_failed(sh, check, claim.value(), (i + 1) as nat, rounds as nat);
            }
            return Err(Error::SumCheck);
        }
        let ghost before = point@;
        let r = transcript.squeeze_challenge();
        current = eval(&poly, r);
        point.push(r);
        assert(vals(point@) =~= vals(before).push(r.value()));
        i += 1;
    }
    Ok((current, point))
}

pub proof fn lemma_fold_all_shape(p: int, ts: Seq<Seq<int>>, r: int, n: nat)
    requires
        p > 0,
        uniform(ts, 2 * n),
    ensures
        uniform(fold_all(p, ts, r), n),
        all_canonical(p, fold_all(p, ts, r)),
        fold_all(p, ts, r).len() == ts.len(),
{
    assert forall|i: int| 0 <= i < ts.len() implies (#[trigger] fold_all(p, ts, r)[i]).len() == n
        && canonical(p, fold_all(p, ts, r)[i]) by {
        assert(ts[i].len() == 2 * n);
        lemma_fold_canonical(p, ts[i], r);
    }
}

/// The two values of a round at 0 and 1 make up the whole sum.
pub proof fn lemma_round_total(comb: Comb, ts: Seq<Seq<int>>, n: nat)
    requires
        ts.len() > 0,
        uniform(ts, 2 * n),
    ensures
        round_at(comb, ts, 0) + round_at(comb, ts, 1) == total(comb, ts),
{
    let lo = Seq::new(n, |k: int| comb(lines(ts, k, 0)));
    let hi = Seq::new(n, |k: int| comb(lines(ts, k, 1)));
    let all = Seq::new(2 * n, |k: int| comb(row(ts, k)));
    assert(ts[0].len() == 2 * n);
    assert forall|k: int| 0 <= k < 2 * n implies all[k] == (lo + hi)[k] by {
        if k < n {
            assert forall|i: int| 0 <= i < ts.len() implies lines(ts, k, 0)[i] == row(ts, k)[i] by {
                assert(ts[i].len() == 2 * n);
                let d = ts[i][k + n] - ts[i][k];
                assert(d * 0 == 0) by (nonlinear_arith);
            }
            assert(lines(ts, k, 0) =~= row(ts, k));
        } else {
            let j = k - n;
            assert forall|i: int| 0 <= i < ts.len() implies lines(ts, j, 1)[i] == row(ts, k)[i] by {
                assert(ts[i].len() == 2 * n);
                let d = ts[i][j + n] - ts[i][j];
                assert(d * 1 == d) by (nonlinear_arith);
            }
            assert(lines(ts, j, 1) =~= row(ts, k));
        }
    }
    assert(all =~= lo + hi);
    lemma_sum_concat(lo, hi);
}

/// The value of a round at `r` is the whole sum of the folded tables.
pub proof fn lemma_round_fold(p: int, comb: Comb, ts: Seq<Seq<int>>, r: int, n: nat)
    requires
        p > 0,
        ts.len() > 0,
        uniform(ts, 2 * n),
        respects(p, comb, ts.len()),
    ensures
        cong(p, round_at(comb, ts, r), total(comb, fold_all(p, ts, r))),
{
    let fs = fold_all(p, ts, r);
    lemma_fold_all_shape(p, ts, r, n);
    assert(fs[0].len() == n);
    assert(ts[0].len() == 2 * n);
    let a = Seq::new(n, |k: int| comb(lines(ts, k, r)));
    let b = Seq::new(n, |k: int| comb(row(fs, k)));
    assert forall|k: int| 0 <= k < n implies cong(p, #[trigger] a[k], b[k]) by {
        let u = lines(ts, k, r);
        let v = row(fs, k);
        assert forall|i: int| 0 <= i < u.len() implies cong(p, #[trigger] u[i], v[i]) by {
            assert(ts[i].len() == 2 * n);
            assert(fs[i] == fold(p, ts[i], r));
            lemma_cong_mod(p, line(ts[i], k, r));
        }
        assert(cong_seq(p, u, v));
    }
    lemma_sum_cong(p, a, b);
}

pub proof fn lemma_prove_rounds_shape(
    sh: Shape,
    comb: Comb,
    tx: Tx,
    ts: Seq<Seq<int>>,
    n: nat,
    vars: nat,
)
    requires
        sh.valid(),
        uniform(ts, two_to(vars)),
        all_canonical(sh.p, ts),
        n <= vars,
    ensures
        ({
            let s = prove_rounds(sh, comb, tx, ts, n);
            &&& crate::transcript::extends(tx, s.tx)
            &&& s.point.len() == n
            &&& canonical(sh.p, s.point)
            &&& s.tables.len() == ts.len()
            &&& uniform(s.tables, two_to((vars - n) as nat))
            &&& all_canonical(sh.p, s.tables)
            &&& s.tables == bind_all(sh.p, ts, s.point)
        }),
    decreases n,
{
    if n == 0 {
        crate::transcript::lemma_prefix_push(tx.proof, Event::Challenge);
        assert(bind_all(sh.p, ts, Seq::empty()) =~= ts);
    } else {
        lemma_prove_rounds_shape(sh, comb, tx, ts, (n - 1) as nat, vars);
        let a = prove_rounds(sh, comb, tx, ts, (n - 1) as nat);
        let b = prove_rounds(sh, comb, tx, ts, n);
        let m = sh.ordered(round_poly(sh.p, sh.degree, comb, a.tables));
        crate::transcript::lemma_write_all_extends(a.tx, m);
        crate::transcript::lemma_prefix_trans(tx.proof, a.tx.proof, b.tx.proof);
        let k = (vars - n) as nat;
        assert(two_to(k + 1) == 2 * two_to(k));
        lemma_fold_all_shape(sh.p, a.tables, b.point.last(), two_to(k));
        assert(b.point.drop_last() =~= a.point);
        assert(b.tables =~= bind_all(sh.p, ts, b.point));
    }
}

/// A verifier who starts with the right claim accepts every round of the prover, draws the same
/// challenges, and ends with the claim that is right for what is left of the tables.
pub proof fn law_sum_check_complete(
    sh: Shape,
    comb: Comb,
    tx: Tx,
    ts: Seq<Seq<int>>,
    n: nat,
    vars: nat,
    full: Seq<Event>,
    check: Check,
    claim: int,
)
    requires
        sh.valid(),
        ts.len() > 0,
        has_degree(comb, ts.len(), sh.degree),
        respects(sh.p, comb, ts.len()),
        uniform(ts, two_to(vars)),
        all_canonical(sh.p, ts),
        n <= vars,
        claim == total(comb, ts) % sh.p,
        synced(tx, full, check),
        prove_rounds(sh, comb, tx, ts, n).tx.proof.is_prefix_of(full),
    ensures
        ({
            let s = prove_rounds(sh, comb, tx, ts, n);
            let v = check_rounds(sh, check, claim, n);
            &&& synced(s.tx, full, v.check)
            &&& v.point == s.point
            &&& v.claim == total(comb, s.tables) % sh.p
        }),
    decreases n,
{
    if n > 0 {
        let a = prove_rounds(sh, comb, tx, ts, (n - 1) as nat);
        let b = prove_rounds(sh, comb, tx, ts, n);
        let u = check_rounds(sh, check, claim, (n - 1) as nat);
        lemma_prove_rounds_shape(sh, comb, tx, ts, (n - 1) as nat, vars);
        let k = (vars - n) as nat;
        assert(two_to(k + 1) == 2 * two_to(k));
        let c = round_poly(sh.p, sh.degree, comb, a.tables);
        lemma_round_poly_exists(sh.p, sh.degree, comb, a.tables);
        let m = sh.ordered(c);
        let t = a.tx.write_all(m);
        crate::transcript::lemma_write_all_extends(a.tx, m);
        crate::transcript::lemma_prefix_trans(a.tx.proof, t.proof, full);
        law_sum_check_complete(sh, comb, tx, ts, (n - 1) as nat, vars, full, check, claim);
        law_read_all_written(a.tx, full, u.check, m);
        assert(m.len() == sh.degree + 1);
        assert(sh.ordered(m) =~= c);
        // the polynomial adds up
        lemma_round_total(comb, a.tables, two_to(k));
        assert(cong(sh.p, poly_at(c, 0), round_at(comb, a.tables, 0)));
        assert(cong(sh.p, poly_at(c, 1), round_at(comb, a.tables, 1)));
        lemma_cong_add(
            sh.p,
            poly_at(c, 0),
            round_at(comb, a.tables, 0),
            poly_at(c, 1),
            round_at(comb, a.tables, 1),
        );
        lemma_cong_mod(sh.p, total(comb, a.tables));
        let c1 = u.check.read_many(sh.degree + 1).0;
        assert(cong(sh.p, poly_at(c, 0) + poly_at(c, 1), u.claim));
        law_same_challenge(t, full, c1, sh.ch);
        let r = (sh.ch)(t.hist);
        assert(cong(sh.p, poly_at(c, r), round_at(comb, a.tables, r)));
        lemma_round_fold(sh.p, comb, a.tables, r, two_to(k));
    }
}

/// Later rounds only add to what was sent.
pub proof fn lemma_rounds_grow(sh: Shape, comb: Comb, tx: Tx, ts: Seq<Seq<int>>, n: nat, m: nat)
    requires
        n <= m,
    ensures
        crate::transcript::extends(
            prove_rounds(sh, comb, tx, ts, n).tx,
            prove_rounds(sh, comb, tx, ts, m).tx,
        ),
    decreases m,
{
    if n < m {
        lemma_rounds_grow(sh, comb, tx, ts, n, (m - 1) as nat);
        let a = prove_rounds(sh, comb, tx, ts, (m - 1) as nat);
        let w = sh.ordered(round_poly(sh.p, sh.degree, comb, a.tables));
        crate::transcript::lemma_write_all_extends(a.tx, w);
        crate::transcript::lemma_prefix_trans(
            prove_rounds(sh, comb, tx, ts, n).tx.proof,
            a.tx.proof,
            a.tx.write_all(w).proof,
        );
    } else {
        crate::transcript::lemma_prefix_push(
            prove_rounds(sh, comb, tx, ts, n).tx.proof,
            Event::Challenge,
        );
    }
}

/// A verifier who starts with a claim other than the sum of the tables refuses in the first round
/// of an honest prover, whatever follows.
pub proof fn law_wrong_claim_refused(
    sh: Shape,
    comb: Comb,
    tx: Tx,
    ts: Seq<Seq<int>>,
    n: nat,
    vars: nat,
    full: Seq<Event>,
    check: Check,
    claim: int,
)
    requires
        sh.valid(),
        ts.len() > 0,
        has_degree(comb, ts.len(), sh.degree),
        respects(sh.p, comb, ts.len()),
        uniform(ts, two_to(vars)),
        all_canonical(sh.p, ts),
        1 <= n <= vars,
        !cong(sh.p, claim, total(comb, ts)),
        synced(tx, full, check),
        prove_rounds(sh, comb, tx, ts, 1).tx.proof.is_prefix_of(full),
    ensures
        check_rounds(sh, check, claim, n).check.err == Some(Error::SumCheck),
{
    let k = (vars - 1) as nat;
    assert(two_to(k + 1) == 2 * two_to(k));
    let c = round_poly(sh.p, sh.degree, comb, ts);
    lemma_round_poly_exists(sh.p, sh.degree, comb, ts);
    let m = sh.ordered(c);
    let t = tx.write_all(m);
    assert(prove_rounds(sh, comb, tx, ts, 0).tx == tx);
    assert(prove_rounds(sh, comb, tx, ts, 1).tx.proof == t.proof);
    law_read_all_written(tx, full, check, m);
    assert(m.len() == sh.degree + 1);
    assert(sh.ordered(m) =~= c);
    lemma_round_total(comb, ts, two_to(k));
    assert(cong(sh.p, poly_at(c, 0), round_at(comb, ts, 0)));
    assert(cong(sh.p, poly_at(c, 1), round_at(comb, ts, 1)));
    lemma_cong_add(
        sh.p,
        poly_at(c, 0),
        round_at(comb, ts, 0),
        poly_at(c, 1),
        round_at(comb, ts, 1),
    );
    assert(!cong(sh.p, poly_at(c, 0) + poly_at(c, 1), claim));
    assert(check_rounds(sh, check, claim, 0).check == check);
    assert(check_rounds(sh, check, claim, 1).check.err == Some(Error::SumCheck));
    lemma_check_rounds_failed(sh, check, claim, 1, n);
}

} // verus!
