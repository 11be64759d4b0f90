//! The sum-checks of the commitment scheme.
use vstd::prelude::*;
use vstd::arithmetic::div_mod::lemma_add_mod_noop;
use crate::algebra::{
    cong, lemma_cong_add, lemma_cong_mod, lemma_cong_mul, lemma_mod_small, lemma_two_to_positive,
    two_to,
};
use crate::bits::{is_power_of_two, log2, log2_of};
use crate::brakingbase_helper::evaluate_eq;
use crate::combiners::{
    PairCombiner, lemma_comb_sum, lemma_prod2, lemma_prod3, pair_comb, prod2, prod3, term2, term3,
};
use crate::error::{Error, outcome};
use crate::field::{PrimeField, vals, vals2};
use crate::merkle::ancestor;
use crate::multilinear::eq_points;
use crate::rounds::{
    Comb, Combiner, Shape, check_rounds, has_degree, lemma_check_rounds_failed, prove_rounds,
    respects, sum_check_prove, sum_check_verify, uniform,
};
use crate::transcript::{
    Check, Oracle, TranscriptRead, TranscriptWrite, Tx, checking, read_field_elements,
};

verus! {

/// `c0 * mask * poly + c1 * h * poly`, for tables in the order mask, poly, h.
pub open spec fn mask_comb(c0: int, c1: int) -> Comb {
    |v: Seq<int>| c0 * (v[0] * v[1]) + c1 * (v[2] * v[1])
}

pub proof fn lemma_mask_comb(p: int, c0: int, c1: int)
    requires
        p > 0,
    ensures
        has_degree(mask_comb(c0, c1), 3, 2),
        respects(p, mask_comb(c0, c1), 3),
{
    lemma_prod2(p, c0, 0, 1, 3);
    lemma_prod2(p, c1, 2, 1, 3);
    lemma_comb_sum(p, prod2(c0, 0, 1), prod2(c1, 2, 1), mask_comb(c0, c1), 3, 2);
}

/// The combiner of the first sum-check.
pub struct MaskCombiner<F: PrimeField> {
    pub c0: F,
    pub c1: F,
}

impl<F: PrimeField> Combiner<F> for MaskCombiner<F> {
    open spec fn comb(&self) -> Comb {
        mask_comb(self.c0.value(), self.c1.value())
    }

    open spec fn arity(&self) -> nat {
        3
    }

    open spec fn degree(&self) -> nat {
        2
    }

    proof fn lemma_combiner(&self) {
        F::lemma_modulus();
        lemma_mask_comb(F::modulus(), self.c0.value(), self.c1.value());
    }

    fn combine(&self, values: &Vec<F>) -> (r: F) {
        let a = term2(self.c0, values[0], values[1]);
        let b = term2(self.c1, values[2], values[1]);
        let r = a.add(b);
        proof {
            F::lemma_modulus();
            let v = vals(values@);
            lemma_add_mod_noop(
                self.c0.value() * (v[0] * v[1]),
                self.c1.value() * (v[2] * v[1]),
                F::modulus(),
            );
        }
        r
    }

    fn is_cubic(&self) -> (r: bool) {
        false
    }
}

/// The product of three tables.
pub open spec fn triple_comb() -> Comb {
    prod3(1, 0, 1, 2)
}

/// The combiner of the second sum-check.
pub struct TripleCombiner {}

impl<F: PrimeField> Combiner<F> for TripleCombiner {
    open spec fn comb(&self) -> Comb {
        triple_comb()
    }

    open spec fn arity(&self) -> nat {
        3
    }

    open spec fn degree(&self) -> nat {
        3
    }

    proof fn lemma_combiner(&self) {
        F::lemma_modulus();
        lemma_prod3(F::modulus(), 1, 0, 1, 2, 3);
    }

    fn combine(&self, values: &Vec<F>) -> (r: F) {
        term3(F::one(), values[0], values[1], values[2])
    }

    fn is_cubic(&self) -> (r: bool) {
        true
    }
}

/// A quadratic sum-check whose polynomials are sent with the highest coefficient first.
pub open spec fn quadratic_shape(p: int, ch: Oracle) -> Shape {
    Shape { p, ch, degree: 2, descending: true }
}

/// A cubic sum-check whose polynomials are sent with the highest coefficient first.
pub open spec fn cubic_shape(p: int, ch: Oracle) -> Shape {
    Shape { p, ch, degree: 3, descending: true }
}

/// A quadratic sum-check whose polynomials are sent with the constant coefficient first.
pub open spec fn batch_shape(p: int, ch: Oracle) -> Shape {
    Shape { p, ch, degree: 2, descending: false }
}

/// The lengths of the tables after some rounds.
pub proof fn lemma_rounds_len(sh: Shape, comb: Comb, tx: Tx, ts: Seq<Seq<int>>, len: nat, n: nat)
    requires
        uniform(ts, len),
    ensures
        prove_rounds(sh, comb, tx, ts, n).tables.len() == ts.len(),
        uniform(prove_rounds(sh, comb, tx, ts, n).tables, ancestor(len as int, n) as nat),
        ancestor(len as int, n) >= 0,
    decreases n,
{
    if n > 0 {
        lemma_rounds_len(sh, comb, tx, ts, len, (n - 1) as nat);
        let a = prove_rounds(sh, comb, tx, ts, (n - 1) as nat);
        let b = prove_rounds(sh, comb, tx, ts, n);
        assert forall|i: int| 0 <= i < b.tables.len() implies (#[trigger] b.tables[i]).len()
            == ancestor(len as int, n) as nat by {
            assert(a.tables[i].len() == ancestor(len as int, (n - 1) as nat) as nat);
        }
    }
}

/// Enough entries for `n` rounds leave at least one.
pub proof fn lemma_halvings(len: nat, n: nat)
    requires
        two_to(n) <= len,
    ensures
        ancestor(len as int, n) >= 1,
    decreases n,
{
    lemma_halvings_bound(len, n);
    lemma_two_to_positive(n);
    if ancestor(len as int, n) <= 0 {
        assert((ancestor(len as int, n) + 1) * two_to(n) <= two_to(n)) by (nonlinear_arith)
            requires
                ancestor(len as int, n) <= 0,
                two_to(n) >= 1,
        ;
    }
}

proof fn lemma_halvings_bound(len: nat, n: nat)
    ensures
        len < (ancestor(len as int, n) + 1) * two_to(n),
        ancestor(len as int, n) >= 0,
    decreases n,
{
    if n > 0 {
        lemma_halvings_bound(len, (n - 1) as nat);
        let a = ancestor(len as int, (n - 1) as nat);
        let b = a / 2;
        let t = two_to((n - 1) as nat) as int;
        assert((a + 1) * t <= (b + 1) * (2 * t)) by (nonlinear_arith)
            requires
                a <= 2 * b + 1,
                t >= 0,
        ;
    } else {
        assert((len + 1) * 1 == len + 1);
    }
}

/// What `points` holds once the challenges of a sum-check are put at its start.
pub open spec fn with_challenges<F: PrimeField>(before: Seq<F>, after: Seq<F>, rs: Seq<int>) -> bool {
    &&& after.len() == before.len()
    &&& vals(after).take(rs.len() as int) == rs
    &&& after.skip(rs.len() as int) == before.skip(rs.len() as int)
}

/// Puts `rs` at the start of `points`.
fn store_challenges<F: PrimeField>(points: &mut Vec<F>, rs: &Vec<F>)
    requires
        rs@.len() <= old(points)@.len(),
    ensures
        with_challenges(old(points)@, final(points)@, vals(rs@)),
{
    let mut i: usize = 0;
    while i < rs.len()
        invariant
            i <= rs@.len(),
            rs@.len() <= old(points)@.len(),
            points@.len() == old(points)@.len(),
            forall|j: int| 0 <= j < i ==> points@[j] == rs@[j],
            forall|j: int| i <= j < points@.len() ==> points@[j] == old(points)@[j],
        decreases rs@.len() - i,
    {
        points.set(i, rs[i]);
        i += 1;
    }
    assert(vals(points@).take(rs@.len() as int) =~= vals(rs@));
    assert(points@.skip(rs@.len() as int) =~= old(points)@.skip(rs@.len() as int));
}

/// Runs the prover of the first sum-check, and sends what is left of `h`.
pub fn first_sum_check_prover<F: PrimeField, T: TranscriptWrite<F>>(
    sum_check_rounds: usize,
    p_p_prime: Vec<F>,
    mask: Vec<F>,
    h: Vec<F>,
    random_combiners: Vec<F>,
    first_sum_check_random_points: &mut Vec<F>,
    transcript: &mut T,
)
    requires
        two_to(sum_check_rounds as nat) <= mask@.len(),
        p_p_prime@.len() == mask@.len(),
        h@.len() == mask@.len(),
        random_combiners@.len() >= 2,
        old(first_sum_check_random_points)@.len() >= sum_check_rounds,
    ensures
        ({
            let s = prove_rounds(
                quadratic_shape(F::modulus(), T::oracle()),
                mask_comb(random_combiners@[0].value(), random_combiners@[1].value()),
                old(transcript).tx(),
                seq![vals(mask@), vals(p_p_prime@), vals(h@)],
                sum_check_rounds as nat,
            );
            &&& final(transcript).tx() == s.tx.write(s.tables[2][0])
            &&& with_challenges(
                old(first_sum_check_random_points)@,
                final(first_sum_check_random_points)@,
                s.point,
            )
            &&& s.point.len() == sum_check_rounds
        }),
{
    let combiner = MaskCombiner { c0: random_combiners[0], c1: random_combiners[1] };
    let ghost len = mask@.len();
    let ghost ts = seq![vals(mask@), vals(p_p_prime@), vals(h@)];
    let mut tables: Vec<Vec<F>> = Vec::new();
    tables.push(mask);
    tables.push(p_p_prime);
    tables.push(h);
    assert(vals2(tables@) =~= ts);
    assert(uniform(ts, len));
    let rs = sum_check_prove(&mut tables, &combiner, true, sum_check_rounds, transcript);
    proof {
        lemma_rounds_len(
            quadratic_shape(F::modulus(), T::oracle()),
            combiner.comb(),
            old(transcript).tx(),
            ts,
            len,
            sum_check_rounds as nat,
        );
        lemma_halvings(len, sum_check_rounds as nat);
        assert(vals2(tables@)[2].len() >= 1);
    }
    transcript.write_field_element(&tables[2][0]);
    store_challenges(first_sum_check_random_points, &rs);
}

/// Runs the prover of the second sum-check, and sends what is left of the three tables.
pub fn second_sum_check_prover<F: PrimeField, T: TranscriptWrite<F>>(
    sum_check_rounds: usize,
    h_erow: Vec<F>,
    h_ecol: Vec<F>,
    h_val: Vec<F>,
    second_sum_check_random_points: &mut Vec<F>,
    transcript: &mut T,
)
    requires
        two_to(sum_check_rounds as nat) <= h_erow@.len(),
        h_ecol@.len() == h_erow@.len(),
        h_val@.len() == h_erow@.len(),
        old(second_sum_check_random_points)@.len() >= sum_check_rounds,
    ensures
        ({
            let s = prove_rounds(
                cubic_shape(F::modulus(), T::oracle()),
                triple_comb(),
                old(transcript).tx(),
                seq![vals(h_erow@), vals(h_ecol@), vals(h_val@)],
                sum_check_rounds as nat,
            );
            &&& final(transcript).tx() == s.tx.write(s.tables[2][0]).write(s.tables[0][0]).write(
                s.tables[1][0],
            )
            &&& with_challenges(
                old(second_sum_check_random_points)@,
                final(second_sum_check_random_points)@,
                s.point,
            )
            &&& s.point.len() == sum_check_rounds
        }),
{
    let combiner = TripleCombiner {  };
    let ghost len = h_erow@.len();
    let ghost ts = seq![vals(h_erow@), vals(h_ecol@), vals(h_val@)];
    let mut tables: Vec<Vec<F>> = Vec::new();
    tables.push(h_erow);
    tables.push(h_ecol);
    tables.push(h_val);
    assert(vals2(tables@) =~= ts);
    assert(uniform(ts, len));
    proof {
        assert(Combiner::<F>::arity(&combiner) == 3);
        assert(Combiner::<F>::degree(&combiner) == 3);
    }
    let rs = sum_check_prove(&mut tables, &combiner, true, sum_check_rounds, transcript);
    proof {
        lemma_rounds_len(
            cubic_shape(F::modulus(), T::oracle()),
            triple_comb(),
            old(transcript).tx(),
            ts,
            len,
            sum_check_rounds as nat,
        );
        lemma_halvings(len, sum_check_rounds as nat);
        assert(vals2(tables@)[0].len() >= 1);
        assert(vals2(tables@)[1].len() >= 1);
        assert(vals2(tables@)[2].len() >= 1);
    }
    transcript.write_field_element(&tables[2][0]);
    transcript.write_field_element(&tables[0][0]);
    transcript.write_field_element(&tables[1][0]);
    store_challenges(second_sum_check_random_points, &rs);
}

/// Runs the prover of a sum-check over the sum of products of polynomials and their partners,
/// and sends what is left of the first partner. Returns that and the challenges; `polys` is left
/// with what is left of the polynomials.
pub fn batch_sum_check_prover<F: PrimeField, T: TranscriptWrite<F>>(
    polys: &mut Vec<Vec<F>>,
    eqs: Vec<Vec<F>>,
    transcript: &mut T,
) -> (r: (F, Vec<F>))
    requires
        old(polys)@.len() >= 1,
        old(polys)@.len() <= usize::MAX / 2,
        eqs@.len() == old(polys)@.len(),
        old(polys)@[0]@.len() >= 1,
        is_power_of_two(old(polys)@[0]@.len()),
        uniform(vals2(old(polys)@), old(polys)@[0]@.len()),
        uniform(vals2(eqs@), old(polys)@[0]@.len()),
    ensures
        ({
            let n = old(polys)@.len();
            let s = prove_rounds(
                batch_shape(F::modulus(), T::oracle()),
                pair_comb(n),
                old(transcript).tx(),
                vals2(old(polys)@) + vals2(eqs@),
                log2_of(old(polys)@[0]@.len()),
            );
            &&& final(transcript).tx() == s.tx.write(s.tables[n as int][0])
            &&& r.0.value() == s.tables[n as int][0]
            &&& vals(r.1@) == s.point
            &&& r.1@.len() == log2_of(old(polys)@[0]@.len())
            &&& vals2(final(polys)@) == s.tables.take(n as int)
        }),
{
    let n = polys.len();
    let combiner = PairCombiner { pairs: n };
    let ghost len = polys@[0]@.len();
    let rounds = log2(polys[0].len());
    let ghost ts = vals2(polys@) + vals2(eqs@);
    let ghost old_polys = polys@;
    let mut tables: Vec<Vec<F>> = Vec::new();
    let mut i: usize = 0;
    while i < n
        invariant
            i <= n,
            n == polys@.len(),
            polys@ == old_polys,
            tables@.len() == i,
            forall|j: int| 0 <= j < i ==> (#[trigger] tables@[j])@ == old_polys[j]@,
        decreases n - i,
    {
        tables.push(crate::field::copy_elements(&polys[i]));
        i += 1;
    }
    i = 0;
    while i < n
        invariant
            i <= n,
            n == eqs@.len(),
            n == old_polys.len(),
            n <= usize::MAX / 2,
            tables@.len() == n + i,
            forall|j: int| 0 <= j < n ==> (#[trigger] tables@[j])@ == old_polys[j]@,
            forall|j: int| n <= j < n + i ==> (#[trigger] tables@[j])@ == eqs@[j - n]@,
        decreases n - i,
    {
        tables.push(crate::field::copy_elements(&eqs[i]));
        i += 1;
    }
    proof {
        assert forall|j: int| 0 <= j < ts.len() implies vals2(tables@)[j] == ts[j] by {
            assert(tables@[j]@ == (if j < n { old_polys[j]@ } else { eqs@[j - n]@ }));
        }
        assert(vals2(tables@) =~= ts);
        assert forall|j: int| 0 <= j < ts.len() implies (#[trigger] ts[j]).len() == len by {
            if j < n {
                assert(ts[j] == vals2(old_polys)[j]);
            } else {
                assert(ts[j] == vals2(eqs@)[j - n]);
            }
        }
        assert(tables@[0]@.len() == len);
        assert(Combiner::<F>::arity(&combiner) == 2 * n);
        assert(Combiner::<F>::degree(&combiner) == 2);
        assert(Combiner::<F>::comb(&combiner) == pair_comb(n as nat));
    }
    let rs = sum_check_prove(&mut tables, &combiner, false, rounds, transcript);
    proof {
        lemma_rounds_len(
            batch_shape(F::modulus(), T::oracle()),
            pair_comb(n as nat),
            old(transcript).tx(),
            ts,
            len,
            rounds as nat,
        );
        lemma_halvings(len, rounds as nat);
        assert(vals2(tables@)[n as int].len() >= 1);
    }
    let first = tables[n][0];
    transcript.write_field_element(&first);
    let ghost all = tables@;
    let mut left: Vec<Vec<F>> = Vec::new();
    i = 0;
    while i < n
        invariant
            i <= n,
            tables@ == all,
            all.len() == 2 * n,
            left@.len() == i,
            forall|j: int| 0 <= j < i ==> (#[trigger] left@[j])@ == all[j]@,
        decreases n - i,
    {
        left.push(crate::field::copy_elements(&tables[i]));
        i += 1;
    }
    proof {
        assert(vals2(left@) =~= vals2(all).take(n as int)) by {
            assert forall|j: int| 0 <= j < n implies vals2(left@)[j] == vals2(all)[j] by {
                assert(left@[j]@ == all[j]@);
            }
        }
    }
    *polys = left;
    (first, rs)
}

/// The product of a point with another, or zero where there is no such point.
pub open spec fn eq_or_zero(r_x: Seq<Seq<int>>, i: int, r_y: Seq<int>) -> int {
    if i < r_x.len() {
        eq_points(r_x[i], r_y)
    } else {
        0
    }
}

/// The nine evaluations in the order in which the polynomials were committed to.
pub open spec fn committed_order(e: Seq<int>) -> Seq<int> {
    seq![e[0], e[2], e[3], e[1], e[4], e[5], e[6], e[7], e[8]]
}

/// What the last claim of the batched sum-check has to be, for the weights `c`, the points `r_x`
/// of the claims, the point `r_y` of the sum-check and the evaluations `e` there.
pub open spec fn batch_expected(c: Seq<int>, r_x: Seq<Seq<int>>, r_y: Seq<int>, e: Seq<int>) -> int {
    let first = c[0] * eq_points(r_x[0], r_y) + c[1] * eq_points(r_x[1], r_y) + c[2] * eq_points(
        r_x[2],
        r_y,
    );
    let second = c[3] * e[1] + c[4] * e[2] + c[5] * e[3];
    let third = c[6] * e[2] + c[7] * e[3] + c[8] * e[4] + c[9] * e[5] + c[10] * e[6] + c[11] * e[7];
    e[0] * first + second * eq_or_zero(r_x, 3, r_y) + third * eq_or_zero(r_x, 4, r_y) + (c[12] * e[8])
        * eq_or_zero(r_x, 5, r_y)
}

/// The outcome of checking a batched sum-check.
pub struct BatchChecking {
    pub check: Check,
    pub evals: Seq<int>,
    pub point: Seq<int>,
}

/// What becomes of a check that goes on with a batched sum-check of the claim.
pub open spec fn check_batch_sum(
    p: int,
    ch: Oracle,
    check: Check,
    r_x: Seq<Seq<int>>,
    claim: int,
    c: Seq<int>,
) -> BatchChecking {
    let s = check_rounds(batch_shape(p, ch), check, claim, r_x[0].len());
    let (c1, e) = s.check.read_many(9);
    let c2 = c1.require(
        cong(p, s.claim, batch_expected(c, r_x, s.point, e)),
        Error::SumCheckEvaluation,
    );
    BatchChecking { check: c2, evals: committed_order(e), point: s.point }
}

pub proof fn lemma_check_batch_sum_failed(
    p: int,
    ch: Oracle,
    check: Check,
    r_x: Seq<Seq<int>>,
    claim: int,
    c: Seq<int>,
)
    requires
        check.err is Some,
    ensures
        check_batch_sum(p, ch, check, r_x, claim, c).check == check,
{
    lemma_check_rounds_failed(batch_shape(p, ch), check, claim, 0, r_x[0].len());
    crate::transcript::lemma_read_many_failed(check, 0, 9);
}

/// The points as integers.
pub open spec fn points_view<F: PrimeField>(r_x: Seq<&Vec<F>>) -> Seq<Seq<int>> {
    Seq::new(r_x.len(), |i: int| vals(r_x[i]@))
}

/// `a * x + b * y + c * z`, with `a`, `b`, `c` from `from` on.
fn weigh_three<F: PrimeField>(c: &Vec<F>, from: usize, x: F, y: F, z: F) -> (r: F)
    requires
        from + 3 <= c@.len(),
    ensures
        ({
            let v = vals(c@);
            let i = from as int;
            r.value() == (v[i] * x.value() + v[i + 1] * y.value() + v[i + 2] * z.value())
                % F::modulus()
        }),
{
    let len = c.len();
    assert(from + 3 <= len);
    let a = c[from].mul(x);
    let b = c[from + 1].mul(y);
    let d = c[from + 2].mul(z);
    let s = a.add(b);
    let r = s.add(d);
    proof {
        F::lemma_modulus();
        let p = F::modulus();
        let v = vals(c@);
        let i = from as int;
        let (m0, m1, m2) = (v[i] * x.value(), v[i + 1] * y.value(), v[i + 2] * z.value());
        lemma_add_mod_noop(m0, m1, p);
        lemma_add_mod_noop(m0 + m1, m2, p);
    }
    r
}

/// Checks the batched sum-check of nine polynomials. Returns their evaluations, in the order in
/// which they were committed to, and the point of these.
pub fn batch_sum_check_verifier<F: PrimeField, T: TranscriptRead<F>>(
    r_x: &Vec<&Vec<F>>,
    claimed_eval: F,
    transcript: &mut T,
    batch_sum_check_random_combiner: &Vec<F>,
) -> (res: Result<(Vec<F>, Vec<F>), Error>)
    requires
        r_x@.len() >= 3,
        forall|i: int| 0 <= i < r_x@.len() ==> (#[trigger] r_x@[i])@.len() == r_x@[0]@.len(),
        batch_sum_check_random_combiner@.len() >= 13,
    ensures
        ({
            let s = check_batch_sum(
                F::modulus(),
                T::oracle(),
                checking(old(transcript).rx()),
                points_view(r_x@),
                claimed_eval.value(),
                vals(batch_sum_check_random_combiner@),
            );
            &&& final(transcript).rx() == s.check.rx
            &&& outcome(res, s.check.err)
            &&& res matches Ok(x) ==> vals(x.0@) == s.evals && vals(x.1@) == s.point && x.0@.len() == 9
                && x.1@.len() == r_x@[0]@.len()
        }),
{
    let ghost p = F::modulus();
    let ghost ch = T::oracle();
    let ghost check = checking(transcript.rx());
    let ghost rx = points_view(r_x@);
    let ghost c = vals(batch_sum_check_random_combiner@);
    let rounds = r_x[0].len();
    let ghost s = check_rounds(batch_shape(p, ch), check, claimed_eval.value(), rounds as nat);
    let (last, r_y) = match sum_check_verify::<F, T>(claimed_eval, 2, false, rounds, transcript) {
        Ok(x) => x,
        Err(e) => {
            proof {
                crate::transcript::lemma_read_many_failed(s.check, 0, 9);
            }
            return Err(e);
        },
    };
    let e = match read_field_elements::<F, T>(transcript, 9) {
        Ok(x) => x,
        Err(e) => {
            return Err(e);
        },
    };
    proof {
        crate::transcript::lemma_read_many_len(s.check, 9);
        assert(vals(e@).len() == e@.len());
        assert(r_x@[0]@.len() == r_y@.len());
        assert(r_x@[1]@.len() == r_y@.len());
        assert(r_x@[2]@.len() == r_y@.len());
        if r_x@.len() > 3 {
            assert(r_x@[3]@.len() == r_y@.len());
        }
        if r_x@.len() > 4 {
            assert(r_x@[4]@.len() == r_y@.len());
        }
        if r_x@.len() > 5 {
            assert(r_x@[5]@.len() == r_y@.len());
        }
    }
    let cb = batch_sum_check_random_combiner;
    let q0 = evaluate_eq(r_x[0], &r_y);
    let q1 = evaluate_eq(r_x[1], &r_y);
    let q2 = evaluate_eq(r_x[2], &r_y);
    let q3 = if r_x.len() > 3 { evaluate_eq(r_x[3], &r_y) } else { F::zero() };
    let q4 = if r_x.len() > 4 { evaluate_eq(r_x[4], &r_y) } else { F::zero() };
    let q5 = if r_x.len() > 5 { evaluate_eq(r_x[5], &r_y) } else { F::zero() };
    let first = weigh_three(cb, 0, q0, q1, q2);
    let second = weigh_three(cb, 3, e[1], e[2], e[3]);
    let third_a = weigh_three(cb, 6, e[2], e[3], e[4]);
    let third_b = weigh_three(cb, 9, e[5], e[6], e[7]);
    let third = third_a.add(third_b);
    let fourth = cb[12].mul(e[8]);
    let m0 = e[0].mul(first);
    let m1 = second.mul(q3);
    let m2 = third.mul(q4);
    let m3 = fourth.mul(q5);
    let s1 = m0.add(m1);
    let s2 = s1.add(m2);
    let expected = s2.add(m3);
    proof {
        F::lemma_modulus();
        let ev = vals(e@);
        let ry = s.point;
        lemma_mod_small(p, 0);
        let (z0, z1, z2) = (
            eq_points(rx[0], ry),
            eq_points(rx[1], ry),
            eq_points(rx[2], ry),
        );
        let (z3, z4, z5) = (eq_or_zero(rx, 3, ry), eq_or_zero(rx, 4, ry), eq_or_zero(rx, 5, ry));
        lemma_cong_mod(p, z0);
        lemma_cong_mod(p, z1);
        lemma_cong_mod(p, z2);
        lemma_cong_mod(p, z3);
        lemma_cong_mod(p, z4);
        lemma_cong_mod(p, z5);
        lemma_cong_mul(p, c[0], c[0], q0.value(), z0);
        lemma_cong_mul(p, c[1], c[1], q1.value(), z1);
        lemma_cong_mul(p, c[2], c[2], q2.value(), z2);
        lemma_cong_add(p, c[0] * q0.value(), c[0] * z0, c[1] * q1.value(), c[1] * z1);
        lemma_cong_add(
            p,
            c[0] * q0.value() + c[1] * q1.value(),
            c[0] * z0 + c[1] * z1,
            c[2] * q2.value(),
            c[2] * z2,
        );
        let x0 = c[0] * z0 + c[1] * z1 + c[2] * z2;
        lemma_cong_mod(p, c[0] * q0.value() + c[1] * q1.value() + c[2] * q2.value());
        assert(cong(p, first.value(), x0));
        let x1 = c[3] * ev[1] + c[4] * ev[2] + c[5] * ev[3];
        lemma_cong_mod(p, x1);
        let x2a = c[6] * ev[2] + c[7] * ev[3] + c[8] * ev[4];
        let x2b = c[9] * ev[5] + c[10] * ev[6] + c[11] * ev[7];
        lemma_add_mod_noop(x2a, x2b, p);
        lemma_cong_mod(p, x2a + x2b);
        assert(cong(p, third.value(), x2a + x2b));
        let x3 = c[12] * ev[8];
        lemma_cong_mod(p, x3);
        lemma_cong_mul(p, ev[0], ev[0], first.value(), x0);
        lemma_cong_mul(p, second.value(), x1, q3.value(), z3);
        lemma_cong_mul(p, third.value(), x2a + x2b, q4.value(), z4);
        lemma_cong_mul(p, fourth.value(), x3, q5.value(), z5);
        lemma_cong_mod(p, ev[0] * first.value());
        lemma_cong_mod(p, second.value() * q3.value());
        lemma_cong_mod(p, third.value() * q4.value());
        lemma_cong_mod(p, fourth.value() * q5.value());
        lemma_cong_add(p, m0.value(), ev[0] * x0, m1.value(), x1 * z3);
        lemma_cong_mod(p, m0.value() + m1.value());
        lemma_cong_add(p, s1.value(), ev[0] * x0 + x1 * z3, m2.value(), (x2a + x2b) * z4);
        lemma_cong_mod(p, s1.value() + m2.value());
        lemma_cong_add(
            p,
            s2.value(),
            ev[0] * x0 + x1 * z3 + (x2a + x2b) * z4,
            m3.value(),
            x3 * z5,
        );
        lemma_cong_mod(p, s2.value() + m3.value());
        assert(cong(p, expected.value(), batch_expected(c, rx, ry, ev)));
        last.lemma_value();
        expected.lemma_value();
        lemma_mod_small(p, last.value());
        lemma_mod_small(p, expected.value());
    }
    if !last.equals(expected) {
        return Err(Error::SumCheckEvaluation);
    }
    let mut evals: Vec<F> = Vec::new();
    evals.push(e[0]);
    evals.push(e[2]);
    evals.push(e[3]);
    evals.push(e[1]);
    evals.push(e[4]);
    evals.push(e[5]);
    evals.push(e[6]);
    evals.push(e[7]);
    evals.push(e[8]);
    assert(vals(evals@) =~= committed_order(vals(e@)));
    Ok((evals, r_y))
}

} // verus!
