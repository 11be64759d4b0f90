//! What a check that accepts has made sure of, for every proof that it may be given.
use vstd::prelude::*;
use crate::algebra::{canonical, cong, lemma_cong_add, lemma_cong_mod, two_to};
use crate::error::{Error, outcome};
use crate::evaluations::mles;
use crate::multilinear::{bind_all, fold_all, law_bind_evaluates, mle, poly_at};
use crate::rounds::{
    Claiming, Comb, Shape, all_canonical, check_round, check_rounds, lemma_fold_all_shape,
    lemma_round_fold, lemma_round_total, respects, round_at, row, total, uniform,
};
use crate::hash::Output;
use crate::sums::lemma_sum_step;
use crate::transcript::{Check, Event, Oracle, Tx, challenges, lemma_read_many_failed};

verus! {

/// The `n` field elements from `from` on.
pub open spec fn elements(s: Seq<Event>, from: int, n: nat) -> Seq<int> {
    Seq::new(n, |i: int| s[from + i]->Element_0)
}

/// There are `n` field elements from `from` on.
pub open spec fn has_elements(s: Seq<Event>, from: int, n: int) -> bool {
    &&& 0 <= from
    &&& from + n <= s.len()
    &&& forall|i: int| from <= i < from + n ==> #[trigger] s[i] is Element
}

/// The `n` digests from `from` on.
pub open spec fn digests(s: Seq<Event>, from: int, n: nat) -> Seq<Output> {
    Seq::new(n, |i: int| s[from + i]->Commitment_0)
}

/// There are `n` digests from `from` on.
pub open spec fn has_digests(s: Seq<Event>, from: int, n: int) -> bool {
    &&& 0 <= from
    &&& from + n <= s.len()
    &&& forall|i: int| from <= i < from + n ==> #[trigger] s[i] is Commitment
}

/// Elements are read if and only if they are next in the proof; they are then what was read, enter
/// the history, and are left out of what is still to be read.
pub proof fn law_elements_read(c: Check, n: nat)
    requires
        c.err is None,
    ensures
        ({
            let (d, v) = c.read_many(n);
            let s = c.rx.stream;
            &&& d.err is None <==> has_elements(s, 0, n as int)
            &&& d.err is Some ==> d.err == Some(Error::Transcript)
            &&& d.err is None ==> {
                &&& v == elements(s, 0, n)
                &&& d.rx.stream == s.skip(n as int)
                &&& d.rx.hist == c.rx.hist + s.take(n as int)
            }
        }),
    decreases n,
{
    let s = c.rx.stream;
    let (d, v) = c.read_many(n);
    if n == 0 {
        assert(v =~= elements(s, 0, 0));
        assert(d.rx.stream =~= s.skip(0));
        assert(d.rx.hist =~= c.rx.hist + s.take(0));
    } else {
        let m = (n - 1) as nat;
        law_elements_read(c, m);
        let (e, u) = c.read_many(m);
        if e.err is None {
            assert(e.rx.stream.len() > 0 <==> s.len() >= n);
            if s.len() >= n {
                assert(e.rx.stream[0] == s[n - 1]);
                if s[n - 1] is Element {
                    assert(v =~= elements(s, 0, n));
                    assert(d.rx.stream =~= s.skip(n as int));
                    assert(d.rx.hist =~= c.rx.hist + s.take(n as int));
                }
            }
        } else {
            assert(d == e);
            if has_elements(s, 0, n as int) {
                assert(has_elements(s, 0, m as int));
            }
        }
    }
}

/// Digests are read if and only if they are next in the proof; they are then what was read, enter
/// the history, and are left out of what is still to be read.
pub proof fn law_digests_read(c: Check, n: nat)
    requires
        c.err is None,
    ensures
        ({
            let (d, v) = c.read_commitments(n);
            let s = c.rx.stream;
            &&& d.err is None <==> has_digests(s, 0, n as int)
            &&& d.err is Some ==> d.err == Some(Error::Transcript)
            &&& d.err is None ==> {
                &&& v == digests(s, 0, n)
                &&& d.rx.stream == s.skip(n as int)
                &&& d.rx.hist == c.rx.hist + s.take(n as int)
            }
        }),
    decreases n,
{
    let s = c.rx.stream;
    let (d, v) = c.read_commitments(n);
    if n == 0 {
        assert(v =~= digests(s, 0, 0));
        assert(d.rx.stream =~= s.skip(0));
        assert(d.rx.hist =~= c.rx.hist + s.take(0));
    } else {
        let m = (n - 1) as nat;
        law_digests_read(c, m);
        let (e, u) = c.read_commitments(m);
        if e.err is None {
            assert(e.rx.stream.len() > 0 <==> s.len() >= n);
            if s.len() >= n {
                assert(e.rx.stream[0] == s[n - 1]);
                if s[n - 1] is Commitment {
                    assert(v =~= digests(s, 0, n));
                    assert(d.rx.stream =~= s.skip(n as int));
                    assert(d.rx.hist =~= c.rx.hist + s.take(n as int));
                }
            }
        } else {
            assert(d == e);
            if has_digests(s, 0, n as int) {
                assert(has_digests(s, 0, m as int));
            }
        }
    }
}

/// Every challenge of several is drawn after the ones before it.
pub proof fn law_challenges_drawn(c: Check, ch: Oracle, n: nat)
    requires
        c.err is None,
    ensures
        ({
            let (d, v) = c.squeeze_many(ch, n);
            &&& d.err is None
            &&& d.rx.stream == c.rx.stream
            &&& d.rx.hist == c.rx.hist + Seq::new(n, |i: int| Event::Challenge)
            &&& v.len() == n
            &&& forall|j: int|
                0 <= j < n ==> #[trigger] v[j] == ch(
                    c.rx.hist + Seq::new(j as nat, |i: int| Event::Challenge),
                )
        }),
    decreases n,
{
    let (d, v) = c.squeeze_many(ch, n);
    if n == 0 {
        assert(d.rx.hist =~= c.rx.hist + Seq::new(0, |i: int| Event::Challenge));
    } else {
        law_challenges_drawn(c, ch, (n - 1) as nat);
        assert(d.rx.hist =~= c.rx.hist + Seq::new(n, |i: int| Event::Challenge));
    }
}

/// Elements that are sent are added to the proof and to the history, one after the other.
pub proof fn law_elements_sent(tx: Tx, v: Seq<int>)
    ensures
        tx.write_all(v).proof == tx.proof + Seq::new(v.len(), |i: int| Event::Element(v[i])),
        tx.write_all(v).hist == tx.hist + Seq::new(v.len(), |i: int| Event::Element(v[i])),
    decreases v.len(),
{
    let t = tx.write_all(v);
    let e = Seq::new(v.len(), |i: int| Event::Element(v[i]));
    if v.len() > 0 {
        let u = v.drop_last();
        law_elements_sent(tx, u);
        assert(e =~= Seq::new(u.len(), |i: int| Event::Element(u[i])).push(Event::Element(v.last())));
    }
    assert(t.proof =~= tx.proof + e);
    assert(t.hist =~= tx.hist + e);
}

/// Digests that are sent are added to the proof and to the history, one after the other.
pub proof fn law_digests_sent(tx: Tx, d: Seq<Output>)
    ensures
        tx.commit_all(d).proof == tx.proof + Seq::new(d.len(), |i: int| Event::Commitment(d[i])),
        tx.commit_all(d).hist == tx.hist + Seq::new(d.len(), |i: int| Event::Commitment(d[i])),
    decreases d.len(),
{
    let t = tx.commit_all(d);
    let e = Seq::new(d.len(), |i: int| Event::Commitment(d[i]));
    if d.len() > 0 {
        let u = d.drop_last();
        law_digests_sent(tx, u);
        assert(e =~= Seq::new(u.len(), |i: int| Event::Commitment(u[i])).push(
            Event::Commitment(d.last()),
        ));
    }
    assert(t.proof =~= tx.proof + e);
    assert(t.hist =~= tx.hist + e);
}

/// A condition that a check asks for decides it, and the first error is the one that is kept.
pub proof fn law_require(c: Check, cond: bool, e: Error)
    ensures
        c.require(cond, e).err is None <==> c.err is None && cond,
        c.err is Some ==> c.require(cond, e).err == c.err,
        c.err is None && !cond ==> c.require(cond, e).err == Some(e),
        c.require(cond, e).rx == c.rx,
{
}

/// What is returned tells whether a check has failed, and with which error.
pub proof fn law_outcome<T>(res: Result<T, Error>, err: Option<Error>)
    ensures
        outcome(res, err) ==> (res is Ok <==> err is None),
        outcome(res, err) ==> (res matches Err(e) ==> err == Some(e)),
        res is Ok && err is None ==> outcome(res, err),
{
}

/// The steps of `n` rounds, in each of which `w` items are sent and a challenge is drawn.
pub open spec fn rounds_history(h: Seq<Event>, s: Seq<Event>, w: nat, n: nat) -> Seq<Event>
    decreases n,
{
    if n == 0 {
        h
    } else {
        (rounds_history(h, s, w, (n - 1) as nat) + s.subrange((n - 1) * w, (n - 1) * w + w)).push(
            Event::Challenge,
        )
    }
}

/// The coefficients that are sent from `from` on, the constant one first.
pub open spec fn poly_from(sh: Shape, s: Seq<Event>, from: int) -> Seq<int> {
    Seq::new(
        sh.degree + 1,
        |j: int|
            s[from + (if sh.descending {
                sh.degree - j
            } else {
                j
            })]->Element_0,
    )
}

/// The coefficients that are sent in round `i`.
pub open spec fn sent_poly(sh: Shape, s: Seq<Event>, i: int) -> Seq<int> {
    poly_from(sh, s, i * (sh.degree + 1))
}

/// The claim that round `i` starts from: the first one, or the value of the polynomial of the round
/// before at its challenge.
pub open spec fn claim_before(sh: Shape, s: Seq<Event>, claim: int, point: Seq<int>, i: int) -> int {
    if i == 0 {
        claim
    } else {
        poly_at(sent_poly(sh, s, i - 1), point[i - 1])
    }
}

/// One round that is accepted, of which the polynomial is sent from `a` on.
pub proof fn lemma_round_read(sh: Shape, u: Claiming, s: Seq<Event>, a: int)
    requires
        sh.p > 0,
        0 <= a <= s.len(),
        u.check.rx.stream == s.skip(a),
        check_round(sh, u).check.err is None,
    ensures
        ({
            let v = check_round(sh, u);
            let b = a + sh.degree + 1;
            let c = poly_from(sh, s, a);
            let r = (sh.ch)(u.check.rx.hist + s.subrange(a, b));
            &&& u.check.err is None
            &&& has_elements(s, a, sh.degree as int + 1)
            &&& v.point == u.point.push(r)
            &&& cong(sh.p, poly_at(c, 0) + poly_at(c, 1), u.claim)
            &&& cong(sh.p, v.claim, poly_at(c, r))
            &&& 0 <= v.claim < sh.p
            &&& v.check.rx.stream == s.skip(b)
            &&& v.check.rx.hist == (u.check.rx.hist + s.subrange(a, b)).push(Event::Challenge)
        }),
{
    let w = sh.degree + 1;
    if u.check.err is Some {
        lemma_read_many_failed(u.check, 0, w);
    }
    law_elements_read(u.check, w);
    let (c1, sent) = u.check.read_many(w);
    let t = u.check.rx.stream;
    assert forall|i: int| a <= i < a + w implies #[trigger] s[i] is Element by {
        assert(t[i - a] == s[i]);
    }
    assert(t.take(w as int) =~= s.subrange(a, a + w));
    assert(t.skip(w as int) =~= s.skip(a + w));
    let c = poly_from(sh, s, a);
    assert forall|j: int| 0 <= j < w implies sh.ordered(sent)[j] == c[j] by {
        let k = if sh.descending {
            sh.degree - j
        } else {
            j
        };
        assert(sh.ordered(sent)[j] == sent[k]);
        assert(sent[k] == t[0 + k]->Element_0);
        assert(t[k] == s[a + k]);
    }
    assert(sh.ordered(sent) =~= c);
    let r = (sh.ch)(c1.rx.hist);
    lemma_cong_mod(sh.p, poly_at(c, r));
    crate::algebra::lemma_mod_canonical(sh.p, poly_at(c, r));
}

/// In round `i`, the two values at zero and one of the polynomial add up to the claim, and the
/// challenge is drawn after the polynomial.
pub open spec fn round_checked(
    sh: Shape,
    h: Seq<Event>,
    s: Seq<Event>,
    claim: int,
    point: Seq<int>,
    i: int,
) -> bool {
    let w = sh.degree + 1;
    let c = sent_poly(sh, s, i);
    &&& cong(sh.p, poly_at(c, 0) + poly_at(c, 1), claim_before(sh, s, claim, point, i))
    &&& point[i] == (sh.ch)(rounds_history(h, s, w, i as nat) + s.subrange(i * w, i * w + w))
}

proof fn lemma_round_checked_ext(
    sh: Shape,
    h: Seq<Event>,
    s: Seq<Event>,
    claim: int,
    a: Seq<int>,
    b: Seq<int>,
    i: int,
)
    requires
        round_checked(sh, h, s, claim, a, i),
        0 <= i < a.len() <= b.len(),
        forall|j: int| 0 <= j < a.len() ==> a[j] == b[j],
    ensures
        round_checked(sh, h, s, claim, b, i),
{
}

/// In a sum-check that is accepted, the two values at zero and one of the polynomial of every round
/// add up to the claim, every challenge is drawn after the polynomial of its round, and the value
/// of the last polynomial at the last challenge is the claim that is left.
pub proof fn law_rounds_checked(sh: Shape, check: Check, claim: int, n: nat)
    requires
        sh.p > 0,
        check_rounds(sh, check, claim, n).check.err is None,
    ensures
        ({
            let v = check_rounds(sh, check, claim, n);
            let (h, s, w) = (check.rx.hist, check.rx.stream, sh.degree + 1);
            &&& check.err is None
            &&& has_elements(s, 0, n as int * w)
            &&& v.point.len() == n
            &&& forall|i: int|
                0 <= i < n ==> #[trigger] round_checked(sh, h, s, claim, v.point, i)
            &&& cong(sh.p, v.claim, claim_before(sh, s, claim, v.point, n as int))
            &&& n > 0 ==> 0 <= v.claim < sh.p
            &&& v.check.rx.stream == s.skip(n as int * w)
            &&& v.check.rx.hist == rounds_history(h, s, w, n)
        }),
    decreases n,
{
    let v = check_rounds(sh, check, claim, n);
    let (h, s, w) = (check.rx.hist, check.rx.stream, sh.degree + 1);
    if n == 0 {
        assert(0int * w == 0) by (nonlinear_arith);
        assert(s.skip(0) =~= s);
    } else {
        let m = (n - 1) as nat;
        let u = check_rounds(sh, check, claim, m);
        assert(v == check_round(sh, u));
        if u.check.err is Some {
            crate::rounds::lemma_check_rounds_failed(sh, check, claim, m, n);
        }
        law_rounds_checked(sh, check, claim, m);
        let a = m as int * w;
        assert(n as int * w == a + w) by (nonlinear_arith)
            requires
                n == m + 1,
                a == m as int * w,
        ;
        lemma_round_read(sh, u, s, a);
        let r = v.point[m as int];
        assert(v.point.drop_last() =~= u.point);
        assert(claim_before(sh, s, claim, v.point, m as int) == claim_before(sh, s, claim, u.point, m as int));
        assert(round_checked(sh, h, s, claim, v.point, m as int));
        assert forall|i: int| 0 <= i < n implies #[trigger] round_checked(sh, h, s, claim, v.point, i) by {
            if i < m {
                assert(round_checked(sh, h, s, claim, u.point, i));
                lemma_round_checked_ext(sh, h, s, claim, u.point, v.point, i);
            }
        }
        assert(has_elements(s, 0, a + w)) by {
            assert forall|i: int| 0 <= i < a + w implies #[trigger] s[i] is Element by {
                if i < a {
                    assert(has_elements(s, 0, a));
                }
            }
        }
    }
}

/// The polynomial of round `i` is not the one that the tables give, but agrees with it at the
/// challenge.
pub open spec fn lucky_round(
    sh: Shape,
    comb: Comb,
    ts: Seq<Seq<int>>,
    s: Seq<Event>,
    point: Seq<int>,
    i: int,
) -> bool {
    let left = bind_all(sh.p, ts, point.take(i));
    &&& cong(sh.p, poly_at(sent_poly(sh, s, i), point[i]), round_at(comb, left, point[i]))
    &&& exists|x: int|
        !cong(sh.p, #[trigger] poly_at(sent_poly(sh, s, i), x), round_at(comb, left, x))
}

/// Whoever the prover is: a sum-check that starts from a false claim on some tables ends with a
/// false claim on what the challenges leave of them, but for a challenge at which a wrong
/// polynomial agrees with the right one.
pub proof fn law_sum_check_sound(
    sh: Shape,
    comb: Comb,
    ts: Seq<Seq<int>>,
    n: nat,
    vars: nat,
    check: Check,
    claim: int,
)
    requires
        sh.p > 0,
        ts.len() > 0,
        respects(sh.p, comb, ts.len()),
        uniform(ts, two_to(vars)),
        n <= vars,
        check_rounds(sh, check, claim, n).check.err is None,
        !cong(sh.p, claim, total(comb, ts)),
    ensures
        ({
            let v = check_rounds(sh, check, claim, n);
            !cong(sh.p, v.claim, total(comb, bind_all(sh.p, ts, v.point))) || exists|i: int|
                0 <= i < n && #[trigger] lucky_round(sh, comb, ts, check.rx.stream, v.point, i)
        }),
    decreases n,
{
    let p = sh.p;
    let v = check_rounds(sh, check, claim, n);
    let s = check.rx.stream;
    law_rounds_checked(sh, check, claim, n);
    if n == 0 {
        assert(bind_all(p, ts, v.point) =~= ts);
    } else {
        let m = (n - 1) as nat;
        let u = check_rounds(sh, check, claim, m);
        if u.check.err is Some {
            crate::rounds::lemma_check_rounds_failed(sh, check, claim, m, n);
        }
        law_sum_check_sound(sh, comb, ts, m, vars, check, claim);
        law_rounds_checked(sh, check, claim, m);
        assert(v.point == u.point.push(v.point[m as int]));
        assert(v.point.take(m as int) =~= u.point);
        if exists|i: int| 0 <= i < m && #[trigger] lucky_round(sh, comb, ts, s, u.point, i) {
            let i = choose|i: int| 0 <= i < m && #[trigger] lucky_round(sh, comb, ts, s, u.point, i);
            assert(v.point.take(i) =~= u.point.take(i));
            assert(lucky_round(sh, comb, ts, s, v.point, i));
        } else {
            let left = bind_all(p, ts, u.point);
            let r = v.point[m as int];
            let k = (vars - n) as nat;
            assert(two_to(k + 1) == 2 * two_to(k));
            lemma_bound_uniform(p, ts, u.point, vars);
            lemma_round_total(comb, left, two_to(k));
            lemma_round_fold(p, comb, left, r, two_to(k));
            assert(bind_all(p, ts, v.point) =~= fold_all(p, left, r)) by {
                assert(v.point.drop_last() =~= u.point);
            }
            let c = sent_poly(sh, s, m as int);
            assert(round_checked(sh, check.rx.hist, s, claim, v.point, m as int));
            assert(cong(p, poly_at(c, 0) + poly_at(c, 1), u.claim));
            if cong(p, poly_at(c, 0), round_at(comb, left, 0)) && cong(
                p,
                poly_at(c, 1),
                round_at(comb, left, 1),
            ) {
                lemma_cong_add(
                    p,
                    poly_at(c, 0),
                    round_at(comb, left, 0),
                    poly_at(c, 1),
                    round_at(comb, left, 1),
                );
            }
            assert(exists|x: int| !cong(p, #[trigger] poly_at(c, x), round_at(comb, left, x)));
            if cong(p, v.claim, total(comb, bind_all(p, ts, v.point))) {
                assert(cong(p, poly_at(c, r), round_at(comb, left, r)));
                assert(lucky_round(sh, comb, ts, s, v.point, m as int));
            }
        }
    }
}

/// Whoever the prover is: if the last claim of a sum-check over all variables is what the values of
/// the tables at its point give, then the first claim is the sum of the tables, but for a challenge
/// at which a wrong polynomial agrees with the right one.
pub proof fn law_claim_sound(
    sh: Shape,
    comb: Comb,
    ts: Seq<Seq<int>>,
    vars: nat,
    check: Check,
    claim: int,
)
    requires
        sh.p > 0,
        ts.len() > 0,
        respects(sh.p, comb, ts.len()),
        uniform(ts, two_to(vars)),
        all_canonical(sh.p, ts),
        ({
            let v = check_rounds(sh, check, claim, vars);
            &&& v.check.err is None
            &&& cong(sh.p, v.claim, comb(mles(sh.p, ts, v.point)))
        }),
    ensures
        cong(sh.p, claim, total(comb, ts)) || exists|i: int|
            0 <= i < vars && #[trigger] lucky_round(
                sh,
                comb,
                ts,
                check.rx.stream,
                check_rounds(sh, check, claim, vars).point,
                i,
            ),
{
    let v = check_rounds(sh, check, claim, vars);
    law_rounds_checked(sh, check, claim, vars);
    if !cong(sh.p, claim, total(comb, ts)) {
        law_sum_check_sound(sh, comb, ts, vars, vars, check, claim);
        let bs = bind_all(sh.p, ts, v.point);
        lemma_bound_uniform(sh.p, ts, v.point, vars);
        assert(two_to(0) == 1);
        assert forall|i: int| 0 <= i < ts.len() implies (#[trigger] bs[i])[0] == mle(
            sh.p,
            ts[i],
            v.point,
        ) by {
            assert(ts[i].len() == two_to(vars));
            assert(canonical(sh.p, ts[i]));
            law_bind_evaluates(sh.p, ts[i], v.point);
        }
        assert(bs[0].len() == 1);
        let f = |k: int| comb(row(bs, k));
        lemma_sum_step(0, f);
        assert(row(bs, 0) =~= mles(sh.p, ts, v.point));
    }
}

/// Tables with their first variables bound are as much shorter.
pub proof fn lemma_bound_uniform(p: int, ts: Seq<Seq<int>>, rs: Seq<int>, vars: nat)
    requires
        p > 0,
        uniform(ts, two_to(vars)),
        rs.len() <= vars,
    ensures
        uniform(bind_all(p, ts, rs), two_to((vars - rs.len()) as nat)),
        bind_all(p, ts, rs).len() == ts.len(),
    decreases rs.len(),
{
    let b = bind_all(p, ts, rs);
    if rs.len() == 0 {
        assert(b =~= ts);
    } else {
        let a = bind_all(p, ts, rs.drop_last());
        lemma_bound_uniform(p, ts, rs.drop_last(), vars);
        let k = (vars - rs.len()) as nat;
        assert(two_to(k + 1) == 2 * two_to(k));
        lemma_fold_all_shape(p, a, rs.last(), two_to(k));
        assert(b =~= fold_all(p, a, rs.last()));
    }
}

/// Two sum-checks that start alike and are sent the same polynomials end alike.
pub proof fn lemma_same_rounds(sh: Shape, a: Check, b: Check, claim: int, n: nat)
    requires
        sh.p > 0,
        check_rounds(sh, a, claim, n).check.err is None,
        check_rounds(sh, b, claim, n).check.err is None,
        a.rx.hist == b.rx.hist,
        forall|i: int|
            0 <= i < n as int * (sh.degree + 1) ==> #[trigger] a.rx.stream[i] == b.rx.stream[i],
    ensures
        ({
            let u = check_rounds(sh, a, claim, n);
            let v = check_rounds(sh, b, claim, n);
            &&& u.point == v.point
            &&& u.claim == v.claim
            &&& u.check.rx.hist == v.check.rx.hist
        }),
    decreases n,
{
    if n > 0 {
        let m = (n - 1) as nat;
        let w = sh.degree + 1;
        let (x, y) = (a.rx.stream, b.rx.stream);
        let (u, v) = (check_rounds(sh, a, claim, m), check_rounds(sh, b, claim, m));
        if u.check.err is Some {
            crate::rounds::lemma_check_rounds_failed(sh, a, claim, m, n);
        }
        if v.check.err is Some {
            crate::rounds::lemma_check_rounds_failed(sh, b, claim, m, n);
        }
        let k = m as int * w;
        assert(n as int * w == k + w) by (nonlinear_arith)
            requires
                n == m + 1,
                k == m as int * w,
        ;
        lemma_same_rounds(sh, a, b, claim, m);
        law_rounds_checked(sh, a, claim, m);
        law_rounds_checked(sh, b, claim, m);
        lemma_round_read(sh, u, x, k);
        lemma_round_read(sh, v, y, k);
        assert(x.subrange(k, k + w) =~= y.subrange(k, k + w));
        assert(poly_from(sh, x, k) =~= poly_from(sh, y, k));
        let (c, d) = (check_rounds(sh, a, claim, n), check_rounds(sh, b, claim, n));
        crate::algebra::lemma_canonical_unique(sh.p, c.claim, d.claim);
    }
}

} // verus!
