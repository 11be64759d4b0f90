//! Fiat-Shamir transcripts: what a prover sends, and the challenges that both sides draw from it.
use vstd::prelude::*;
use crate::algebra::{
    canonical, lemma_cong_add, lemma_cong_mod, lemma_cong_mul, lemma_mod_canonical,
};
use crate::error::{Error, outcome};
use crate::field::{PrimeField, le_bytes, le_value, vals};
use crate::hash::{HashFunction, Output, append_bytes, append_output};

verus! {

/// One step of a transcript.
pub enum Event {
    /// A field element was sent.
    Element(int),
    /// A digest was sent.
    Commitment(Output),
    /// A challenge was drawn.
    Challenge,
}

/// The challenge that a history of steps leads to.
pub type Oracle = spec_fn(Seq<Event>) -> int;

/// Every challenge is a reduced field element.
pub open spec fn oracle_reduced(p: int, ch: Oracle) -> bool {
    forall|h: Seq<Event>| 0 <= #[trigger] ch(h) < p
}

/// The sending side: all steps so far, and those among them that are part of the proof.
pub struct Tx {
    pub hist: Seq<Event>,
    pub proof: Seq<Event>,
}

impl Tx {
    pub open spec fn write(self, v: int) -> Tx {
        Tx { hist: self.hist.push(Event::Element(v)), proof: self.proof.push(Event::Element(v)) }
    }

    pub open spec fn write_all(self, v: Seq<int>) -> Tx
        decreases v.len(),
    {
        if v.len() == 0 {
            self
        } else {
            self.write_all(v.drop_last()).write(v.last())
        }
    }

    pub open spec fn commit(self, d: Output) -> Tx {
        Tx { hist: self.hist.push(Event::Commitment(d)), proof: self.proof.push(Event::Commitment(d)) }
    }

    pub open spec fn commit_all(self, d: Seq<Output>) -> Tx
        decreases d.len(),
    {
        if d.len() == 0 {
            self
        } else {
            self.commit_all(d.drop_last()).commit(d.last())
        }
    }

    pub open spec fn squeeze(self) -> Tx {
        Tx { hist: self.hist.push(Event::Challenge), proof: self.proof }
    }

    pub open spec fn squeeze_many(self, n: nat) -> Tx
        decreases n,
    {
        if n == 0 {
            self
        } else {
            self.squeeze_many((n - 1) as nat).squeeze()
        }
    }
}

/// The `n` challenges that follow the history `h`.
pub open spec fn challenges(ch: Oracle, h: Seq<Event>, n: nat) -> Seq<int>
    decreases n,
{
    if n == 0 {
        Seq::empty()
    } else {
        challenges(ch, h, (n - 1) as nat).push(
            ch(h + Seq::new((n - 1) as nat, |i: int| Event::Challenge)),
        )
    }
}

/// The receiving side: all steps so far, and what of the proof is not yet read.
pub struct Rx {
    pub hist: Seq<Event>,
    pub stream: Seq<Event>,
}

/// The receiving side of a check that may have failed. Once it has failed, nothing changes.
pub struct Check {
    pub rx: Rx,
    pub err: Option<Error>,
}

/// A check at its beginning.
pub open spec fn checking(rx: Rx) -> Check {
    Check { rx, err: None }
}

impl Check {
    pub open spec fn fail(self, e: Error) -> Check {
        if self.err is Some {
            self
        } else {
            Check { rx: self.rx, err: Some(e) }
        }
    }

    /// Fails with `e` unless `cond` holds.
    pub open spec fn require(self, cond: bool, e: Error) -> Check {
        if cond {
            self
        } else {
            self.fail(e)
        }
    }

    pub open spec fn read(self) -> (Check, int) {
        if self.err is Some {
            (self, 0)
        } else if self.rx.stream.len() > 0 && self.rx.stream[0] is Element {
            (
                Check {
                    rx: Rx {
                        hist: self.rx.hist.push(self.rx.stream[0]),
                        stream: self.rx.stream.skip(1),
                    },
                    err: None,
                },
                self.rx.stream[0]->Element_0,
            )
        } else {
            (self.fail(Error::Transcript), 0)
        }
    }

    pub open spec fn read_many(self, n: nat) -> (Check, Seq<int>)
        decreases n,
    {
        if n == 0 {
            (self, Seq::empty())
        } else {
            let (s, v) = self.read_many((n - 1) as nat);
            let (t, x) = s.read();
            (t, v.push(x))
        }
    }

    pub open spec fn read_commitment(self) -> (Check, Output) {
        if self.err is Some {
            (self, arbitrary())
        } else if self.rx.stream.len() > 0 && self.rx.stream[0] is Commitment {
            (
                Check {
                    rx: Rx {
                        hist: self.rx.hist.push(self.rx.stream[0]),
                        stream: self.rx.stream.skip(1),
                    },
                    err: None,
                },
                self.rx.stream[0]->Commitment_0,
            )
        } else {
            (self.fail(Error::Transcript), arbitrary())
        }
    }

    pub open spec fn read_commitments(self, n: nat) -> (Check, Seq<Output>)
        decreases n,
    {
        if n == 0 {
            (self, Seq::empty())
        } else {
            let (s, v) = self.read_commitments((n - 1) as nat);
            let (t, x) = s.read_commitment();
            (t, v.push(x))
        }
    }

    pub open spec fn squeeze(self, ch: Oracle) -> (Check, int) {
        if self.err is Some {
            (self, 0)
        } else {
            (
                Check {
                    rx: Rx { hist: self.rx.hist.push(Event::Challenge), stream: self.rx.stream },
                    err: None,
                },
                ch(self.rx.hist),
            )
        }
    }

    pub open spec fn squeeze_many(self, ch: Oracle, n: nat) -> (Check, Seq<int>)
        decreases n,
    {
        if n == 0 {
            (self, Seq::empty())
        } else {
            let (s, v) = self.squeeze_many(ch, (n - 1) as nat);
            let (t, x) = s.squeeze(ch);
            (t, v.push(x))
        }
    }
}

/// The sending side of a transcript.
pub trait TranscriptWrite<F: PrimeField> {
    spec fn oracle() -> Oracle;

    spec fn tx(&self) -> Tx;

    proof fn lemma_oracle()
        ensures
            oracle_reduced(F::modulus(), Self::oracle()),
    ;

    fn write_field_element(&mut self, fe: &F)
        ensures
            final(self).tx() == old(self).tx().write(fe.value()),
    ;

    fn write_commitment(&mut self, commitment: &Output)
        ensures
            final(self).tx() == old(self).tx().commit(*commitment),
    ;

    fn squeeze_challenge(&mut self) -> (r: F)
        ensures
            final(self).tx() == old(self).tx().squeeze(),
            r.value() == Self::oracle()(old(self).tx().hist),
    ;
}

/// The receiving side of a transcript.
pub trait TranscriptRead<F: PrimeField> {
    spec fn oracle() -> Oracle;

    spec fn rx(&self) -> Rx;

    proof fn lemma_oracle()
        ensures
            oracle_reduced(F::modulus(), Self::oracle()),
    ;

    fn read_field_element(&mut self) -> (r: Result<F, Error>)
        ensures
            ({
                let (s, v) = checking(old(self).rx()).read();
                &&& final(self).rx() == s.rx
                &&& outcome(r, s.err)
                &&& r matches Ok(x) ==> x.value() == v
            }),
    ;

    fn read_commitment(&mut self) -> (r: Result<Output, Error>)
        ensures
            ({
                let (s, v) = checking(old(self).rx()).read_commitment();
                &&& final(self).rx() == s.rx
                &&& outcome(r, s.err)
                &&& r matches Ok(x) ==> x == v
            }),
    ;

    fn squeeze_challenge(&mut self) -> (r: F)
        ensures
            ({
                let (s, v) = checking(old(self).rx()).squeeze(Self::oracle());
                &&& final(self).rx() == s.rx
                &&& r.value() == v
            }),
    ;
}

pub proof fn lemma_challenges_canonical(p: int, ch: Oracle, h: Seq<Event>, n: nat)
    requires
        oracle_reduced(p, ch),
    ensures
        challenges(ch, h, n).len() == n,
        canonical(p, challenges(ch, h, n)),
    decreases n,
{
    if n > 0 {
        lemma_challenges_canonical(p, ch, h, (n - 1) as nat);
    }
}

pub proof fn lemma_challenges_len(ch: Oracle, h: Seq<Event>, n: nat)
    ensures
        challenges(ch, h, n).len() == n,
    decreases n,
{
    if n > 0 {
        lemma_challenges_len(ch, h, (n - 1) as nat);
    }
}

pub proof fn lemma_squeeze_many_hist(tx: Tx, n: nat)
    ensures
        tx.squeeze_many(n).proof == tx.proof,
        tx.squeeze_many(n).hist == tx.hist + Seq::new(n, |i: int| Event::Challenge),
    decreases n,
{
    if n > 0 {
        lemma_squeeze_many_hist(tx, (n - 1) as nat);
        assert(tx.squeeze_many(n).hist =~= tx.hist + Seq::new(n, |i: int| Event::Challenge));
    } else {
        assert(tx.hist =~= tx.hist + Seq::new(0, |i: int| Event::Challenge));
    }
}

pub proof fn lemma_read_many_len(s: Check, n: nat)
    ensures
        s.read_many(n).1.len() == n,
    decreases n,
{
    if n > 0 {
        lemma_read_many_len(s, (n - 1) as nat);
    }
}

pub proof fn lemma_read_commitments_len(s: Check, n: nat)
    ensures
        s.read_commitments(n).1.len() == n,
    decreases n,
{
    if n > 0 {
        lemma_read_commitments_len(s, (n - 1) as nat);
    }
}

/// A check that has failed stays as it is.
pub proof fn lemma_read_many_failed(s: Check, n: nat, m: nat)
    requires
        s.read_many(n).0.err is Some,
        n <= m,
    ensures
        s.read_many(m).0 == s.read_many(n).0,
    decreases m,
{
    if n < m {
        lemma_read_many_failed(s, n, (m - 1) as nat);
    }
}

pub proof fn lemma_read_commitments_failed(s: Check, n: nat, m: nat)
    requires
        s.read_commitments(n).0.err is Some,
        n <= m,
    ensures
        s.read_commitments(m).0 == s.read_commitments(n).0,
    decreases m,
{
    if n < m {
        lemma_read_commitments_failed(s, n, (m - 1) as nat);
    }
}

pub proof fn lemma_squeeze_many_failed(s: Check, ch: Oracle, n: nat)
    requires
        s.err is Some,
    ensures
        s.squeeze_many(ch, n).0 == s,
    decreases n,
{
    if n > 0 {
        lemma_squeeze_many_failed(s, ch, (n - 1) as nat);
    }
}

/// Drawing challenges does not fail, and the receiving side draws what the sending side does.
pub proof fn lemma_squeeze_many_rx(s: Check, ch: Oracle, n: nat)
    requires
        s.err is None,
    ensures
        s.squeeze_many(ch, n).0.err is None,
        s.squeeze_many(ch, n).0.rx.stream == s.rx.stream,
        s.squeeze_many(ch, n).0.rx.hist == s.rx.hist + Seq::new(n, |i: int| Event::Challenge),
        s.squeeze_many(ch, n).1 == challenges(ch, s.rx.hist, n),
    decreases n,
{
    if n > 0 {
        lemma_squeeze_many_rx(s, ch, (n - 1) as nat);
        assert(s.squeeze_many(ch, n).0.rx.hist =~= s.rx.hist + Seq::new(
            n,
            |i: int| Event::Challenge,
        ));
    } else {
        assert(s.rx.hist =~= s.rx.hist + Seq::new(0, |i: int| Event::Challenge));
    }
}

/// The receiver `s` has read just what the sender `tx` has sent so far of the proof `full`.
pub open spec fn synced(tx: Tx, full: Seq<Event>, s: Check) -> bool {
    &&& s.err is None
    &&& s.rx.hist == tx.hist
    &&& tx.proof.is_prefix_of(full)
    &&& s.rx.stream == full.skip(tx.proof.len() as int)
}

/// The sender `b` has sent what the sender `a` has, and possibly more.
pub open spec fn extends(a: Tx, b: Tx) -> bool {
    a.proof.is_prefix_of(b.proof)
}

pub proof fn lemma_prefix_trans(a: Seq<Event>, b: Seq<Event>, c: Seq<Event>)
    requires
        a.is_prefix_of(b),
        b.is_prefix_of(c),
    ensures
        a.is_prefix_of(c),
{
    assert forall|i: int| 0 <= i < a.len() implies a[i] == c[i] by {
        assert(a[i] == b.subrange(0, a.len() as int)[i]);
        assert(b[i] == c.subrange(0, b.len() as int)[i]);
    }
    assert(a =~= c.subrange(0, a.len() as int));
}

pub proof fn lemma_prefix_push(a: Seq<Event>, e: Event)
    ensures
        a.is_prefix_of(a.push(e)),
        a.is_prefix_of(a),
{
    assert(a =~= a.push(e).subrange(0, a.len() as int));
    assert(a =~= a.subrange(0, a.len() as int));
}

pub proof fn lemma_write_all_extends(tx: Tx, v: Seq<int>)
    ensures
        extends(tx, tx.write_all(v)),
    decreases v.len(),
{
    if v.len() > 0 {
        lemma_write_all_extends(tx, v.drop_last());
        let m = tx.write_all(v.drop_last());
        lemma_prefix_push(m.proof, Event::Element(v.last()));
        lemma_prefix_trans(tx.proof, m.proof, m.write(v.last()).proof);
    } else {
        lemma_prefix_push(tx.proof, Event::Challenge);
    }
}

pub proof fn lemma_commit_all_extends(tx: Tx, v: Seq<Output>)
    ensures
        extends(tx, tx.commit_all(v)),
    decreases v.len(),
{
    if v.len() > 0 {
        lemma_commit_all_extends(tx, v.drop_last());
        let m = tx.commit_all(v.drop_last());
        lemma_prefix_push(m.proof, Event::Commitment(v.last()));
        lemma_prefix_trans(tx.proof, m.proof, m.commit(v.last()).proof);
    } else {
        lemma_prefix_push(tx.proof, Event::Challenge);
    }
}

/// An element that was sent is the one that is read.
pub proof fn law_read_written(tx: Tx, full: Seq<Event>, s: Check, v: int)
    requires
        synced(tx, full, s),
        tx.write(v).proof.is_prefix_of(full),
    ensures
        s.read().1 == v,
        synced(tx.write(v), full, s.read().0),
{
    let k = tx.proof.len() as int;
    let w = tx.write(v).proof;
    assert(w[k] == full.subrange(0, w.len() as int)[k]);
    assert(full.skip(k)[0] == full[k]);
    assert(full.skip(k).skip(1) =~= full.skip(k + 1));
}

/// A digest that was sent is the one that is read.
pub proof fn law_read_committed(tx: Tx, full: Seq<Event>, s: Check, d: Output)
    requires
        synced(tx, full, s),
        tx.commit(d).proof.is_prefix_of(full),
    ensures
        s.read_commitment().1 == d,
        synced(tx.commit(d), full, s.read_commitment().0),
{
    let k = tx.proof.len() as int;
    let w = tx.commit(d).proof;
    assert(w[k] == full.subrange(0, w.len() as int)[k]);
    assert(full.skip(k)[0] == full[k]);
    assert(full.skip(k).skip(1) =~= full.skip(k + 1));
}

/// Elements that were sent are the ones that are read.
pub proof fn law_read_all_written(tx: Tx, full: Seq<Event>, s: Check, v: Seq<int>)
    requires
        synced(tx, full, s),
        tx.write_all(v).proof.is_prefix_of(full),
    ensures
        s.read_many(v.len()).1 == v,
        synced(tx.write_all(v), full, s.read_many(v.len()).0),
    decreases v.len(),
{
    if v.len() > 0 {
        let m = tx.write_all(v.drop_last());
        lemma_prefix_push(m.proof, Event::Element(v.last()));
        lemma_prefix_trans(m.proof, tx.write_all(v).proof, full);
        law_read_all_written(tx, full, s, v.drop_last());
        law_read_written(m, full, s.read_many((v.len() - 1) as nat).0, v.last());
        assert(v.drop_last().push(v.last()) =~= v);
    } else {
        assert(v =~= Seq::empty());
    }
}

/// Digests that were sent are the ones that are read.
pub proof fn law_read_all_committed(tx: Tx, full: Seq<Event>, s: Check, v: Seq<Output>)
    requires
        synced(tx, full, s),
        tx.commit_all(v).proof.is_prefix_of(full),
    ensures
        s.read_commitments(v.len()).1 == v,
        synced(tx.commit_all(v), full, s.read_commitments(v.len()).0),
    decreases v.len(),
{
    if v.len() > 0 {
        let m = tx.commit_all(v.drop_last());
        lemma_prefix_push(m.proof, Event::Commitment(v.last()));
        lemma_prefix_trans(m.proof, tx.commit_all(v).proof, full);
        law_read_all_committed(tx, full, s, v.drop_last());
        law_read_committed(m, full, s.read_commitments((v.len() - 1) as nat).0, v.last());
        assert(v.drop_last().push(v.last()) =~= v);
    } else {
        assert(v =~= Seq::empty());
    }
}

/// Both sides draw the same challenge.
pub proof fn law_same_challenge(tx: Tx, full: Seq<Event>, s: Check, ch: Oracle)
    requires
        synced(tx, full, s),
    ensures
        s.squeeze(ch).1 == ch(tx.hist),
        synced(tx.squeeze(), full, s.squeeze(ch).0),
{
}

/// Both sides draw the same challenges.
pub proof fn law_same_challenges(tx: Tx, full: Seq<Event>, s: Check, ch: Oracle, n: nat)
    requires
        synced(tx, full, s),
    ensures
        s.squeeze_many(ch, n).1 == challenges(ch, tx.hist, n),
        synced(tx.squeeze_many(n), full, s.squeeze_many(ch, n).0),
{
    lemma_squeeze_many_rx(s, ch, n);
    lemma_squeeze_many_hist(tx, n);
}

/// Sends the elements in order.
pub fn write_field_elements<F: PrimeField, T: TranscriptWrite<F>>(transcript: &mut T, fes: &Vec<F>)
    ensures
        final(transcript).tx() == old(transcript).tx().write_all(vals(fes@)),
{
    let mut i: usize = 0;
    let ghost s = vals(fes@);
    while i < fes.len()
        invariant
            i <= fes.len(),
            s == vals(fes@),
            transcript.tx() == old(transcript).tx().write_all(s.take(i as int)),
        decreases fes.len() - i,
    {
        transcript.write_field_element(&fes[i]);
        assert(s.take(i as int + 1).drop_last() == s.take(i as int));
        i += 1;
    }
    assert(s.take(s.len() as int) == s);
}

/// Sends the digests in order.
pub fn write_commitments<F: PrimeField, T: TranscriptWrite<F>>(
    transcript: &mut T,
    commitments: &Vec<Output>,
)
    ensures
        final(transcript).tx() == old(transcript).tx().commit_all(commitments@),
{
    let mut i: usize = 0;
    while i < commitments.len()
        invariant
            i <= commitments.len(),
            transcript.tx() == old(transcript).tx().commit_all(commitments@.take(i as int)),
        decreases commitments.len() - i,
    {
        transcript.write_commitment(&commitments[i]);
        assert(commitments@.take(i as int + 1).drop_last() == commitments@.take(i as int));
        i += 1;
    }
    assert(commitments@.take(commitments@.len() as int) == commitments@);
}

/// Draws `n` challenges on the sending side.
pub fn squeeze_challenges<F: PrimeField, T: TranscriptWrite<F>>(
    transcript: &mut T,
    n: usize,
) -> (r: Vec<F>)
    ensures
        final(transcript).tx() == old(transcript).tx().squeeze_many(n as nat),
        vals(r@) == challenges(T::oracle(), old(transcript).tx().hist, n as nat),
{
    let mut r: Vec<F> = Vec::new();
    let mut i: usize = 0;
    let ghost tx = transcript.tx();
    while i < n
        invariant
            i <= n,
            tx == old(transcript).tx(),
            transcript.tx() == tx.squeeze_many(i as nat),
            vals(r@) == challenges(T::oracle(), tx.hist, i as nat),
        decreases n - i,
    {
        proof {
            lemma_squeeze_many_hist(tx, i as nat);
        }
        let ghost before = r@;
        let c = transcript.squeeze_challenge();
        r.push(c);
        assert(vals(r@) =~= vals(before).push(c.value()));
        i += 1;
    }
    r
}

/// Receives `n` elements.
pub fn read_field_elements<F: PrimeField, T: TranscriptRead<F>>(
    transcript: &mut T,
    n: usize,
) -> (r: Result<Vec<F>, Error>)
    ensures
        ({
            let (s, v) = checking(old(transcript).rx()).read_many(n as nat);
            &&& final(transcript).rx() == s.rx
            &&& outcome(r, s.err)
            &&& r matches Ok(x) ==> vals(x@) == v
        }),
{
    let mut r: Vec<F> = Vec::new();
    let mut i: usize = 0;
    let ghost s = checking(transcript.rx());
    while i < n
        invariant
            i <= n,
            s == checking(old(transcript).rx()),
            s.read_many(i as nat).0 == checking(transcript.rx()),
            vals(r@) == s.read_many(i as nat).1,
        decreases n - i,
    {
        let ghost before = r@;
        match transcript.read_field_element() {
            Ok(x) => {
                r.push(x);
                assert(vals(r@) =~= vals(before).push(x.value()));
            },
            Err(e) => {
                proof {
                    lemma_read_many_failed(s, (i + 1) as nat, n as nat);
                }
                return Err(e);
            },
        }
        i += 1;
    }
    Ok(r)
}

/// Receives `n` digests.
pub fn read_commitments<F: PrimeField, T: TranscriptRead<F>>(
    transcript: &mut T,
    n: usize,
) -> (r: Result<Vec<Output>, Error>)
    ensures
        ({
            let (s, v) = checking(old(transcript).rx()).read_commitments(n as nat);
            &&& final(transcript).rx() == s.rx
            &&& outcome(r, s.err)
            &&& r matches Ok(x) ==> x@ == v
        }),
{
    let mut r: Vec<Output> = Vec::new();
    let mut i: usize = 0;
    let ghost s = checking(transcript.rx());
    while i < n
        invariant
            i <= n,
            s == checking(old(transcript).rx()),
            s.read_commitments(i as nat).0 == checking(transcript.rx()),
            r@ == s.read_commitments(i as nat).1,
        decreases n - i,
    {
        match transcript.read_commitment() {
            Ok(x) => {
                r.push(x);
            },
            Err(e) => {
                proof {
                    lemma_read_commitments_failed(s, (i + 1) as nat, n as nat);
                }
                return Err(e);
            },
        }
        i += 1;
    }
    Ok(r)
}

/// Draws `n` challenges on the receiving side.
pub fn read_challenges<F: PrimeField, T: TranscriptRead<F>>(transcript: &mut T, n: usize) -> (r: Vec<
    F,
>)
    ensures
        ({
            let (s, v) = checking(old(transcript).rx()).squeeze_many(T::oracle(), n as nat);
            &&& checking(final(transcript).rx()) == s
            &&& vals(r@) == v
        }),
{
    let mut r: Vec<F> = Vec::new();
    let mut i: usize = 0;
    let ghost s = checking(transcript.rx());
    while i < n
        invariant
            i <= n,
            s == checking(old(transcript).rx()),
            s.squeeze_many(T::oracle(), i as nat).0 == checking(transcript.rx()),
            vals(r@) == s.squeeze_many(T::oracle(), i as nat).1,
        decreases n - i,
    {
        let ghost before = r@;
        let c = transcript.squeeze_challenge();
        r.push(c);
        assert(vals(r@) =~= vals(before).push(c.value()));
        i += 1;
    }
    r
}

/// The bytes that a transcript with a given history hashes next.
pub open spec fn sponge<F: PrimeField, H: HashFunction>(h: Seq<Event>) -> Seq<u8>
    decreases h.len(),
{
    if h.len() == 0 {
        Seq::empty()
    } else {
        let before = sponge::<F, H>(h.drop_last());
        match h.last() {
            Event::Element(v) => before + le_bytes(v as nat, F::repr_len()),
            Event::Commitment(d) => before + d@,
            Event::Challenge => H::digest(before)@,
        }
    }
}

/// The challenges of a transcript over the hash function `H`.
pub open spec fn hash_oracle<F: PrimeField, H: HashFunction>() -> Oracle {
    |h: Seq<Event>| le_value(H::digest(sponge::<F, H>(h))@) as int % F::modulus()
}

/// An item of a proof.
#[derive(Clone, Copy, Debug)]
pub enum ProofItem<F> {
    Element(F),
    Commitment(Output),
}

/// An item as it enters the history.
pub open spec fn item_event<F: PrimeField>(item: ProofItem<F>) -> Event {
    match item {
        ProofItem::Element(x) => Event::Element(x.value()),
        ProofItem::Commitment(d) => Event::Commitment(d),
    }
}

/// Items as they enter the history.
pub open spec fn item_events<F: PrimeField>(items: Seq<ProofItem<F>>) -> Seq<Event> {
    Seq::new(items.len(), |i: int| item_event(items[i]))
}

/// The field element that little-endian bytes are congruent to.
pub fn element_from_bytes<F: PrimeField>(bytes: &Output) -> (r: F)
    ensures
        r.value() == le_value(bytes@) as int % F::modulus(),
{
    let base = F::from_u64(256);
    let mut acc = F::zero();
    let mut i: usize = 32;
    let ghost p = F::modulus();
    proof {
        F::lemma_modulus();
        assert(le_value(bytes@.skip(32)) == 0);
        lemma_mod_canonical(p, 0);
        vstd::arithmetic::div_mod::lemma_small_mod(0, p as nat);
    }
    while i > 0
        invariant
            i <= 32,
            p == F::modulus(),
            p > 0,
            base.value() == 256int % p,
            acc.value() == le_value(bytes@.skip(i as int)) as int % p,
        decreases i,
    {
        i -= 1;
        let ghost tail = le_value(bytes@.skip(i as int + 1)) as int;
        let d = F::from_u64(bytes[i] as u64);
        let t = acc.mul(base);
        acc = t.add(d);
        proof {
            assert(bytes@.skip(i as int).skip(1) =~= bytes@.skip(i as int + 1));
            let b = bytes@[i as int] as int;
            lemma_cong_mod(p, tail);
            lemma_cong_mod(p, 256);
            lemma_cong_mul(p, tail % p, tail, 256int % p, 256);
            lemma_cong_mod(p, tail % p * (256int % p));
            lemma_cong_mod(p, b);
            lemma_cong_add(p, t.value(), tail * 256, b % p, b);
        }
    }
    assert(bytes@.skip(0) =~= bytes@);
    acc
}

/// A transcript whose challenges come from the hash function `H`.
pub struct FiatShamirTranscript<F: PrimeField, H: HashFunction> {
    state: Vec<u8>,
    items: Vec<ProofItem<F>>,
    position: usize,
    hist: Ghost<Seq<Event>>,
    hasher: core::marker::PhantomData<H>,
}

impl<F: PrimeField, H: HashFunction> FiatShamirTranscript<F, H> {
    #[verifier::type_invariant]
    spec fn wf(self) -> bool {
        self.state@ == sponge::<F, H>(self.hist@)
    }

    /// An empty transcript.
    pub fn new() -> (r: Self)
        ensures
            TranscriptWrite::<F>::tx(&r) == (Tx { hist: Seq::empty(), proof: Seq::empty() }),
    {
        let r = FiatShamirTranscript {
            state: Vec::new(),
            items: Vec::new(),
            position: 0,
            hist: Ghost(Seq::empty()),
            hasher: core::marker::PhantomData,
        };
        assert(TranscriptWrite::<F>::tx(&r).proof =~= Seq::<Event>::empty());
        r
    }

    /// A transcript that reads `proof`.
    pub fn from_proof(proof: Vec<ProofItem<F>>) -> (r: Self)
        ensures
            TranscriptRead::<F>::rx(&r) == (Rx { hist: Seq::empty(), stream: item_events(proof@) }),
    {
        let r = FiatShamirTranscript {
            state: Vec::new(),
            items: proof,
            position: 0,
            hist: Ghost(Seq::empty()),
            hasher: core::marker::PhantomData,
        };
        assert(TranscriptRead::<F>::rx(&r).stream =~= item_events(proof@));
        r
    }

    /// What was sent.
    pub fn into_proof(self) -> (r: Vec<ProofItem<F>>)
        ensures
            item_events(r@) == TranscriptWrite::<F>::tx(&self).proof,
    {
        self.items
    }

    /// Takes in `item`, as the next one sent where `sent` holds, and moves to `position`.
    fn absorb(&mut self, item: ProofItem<F>, sent: bool, position: usize)
        ensures
            final(self).hist@ == old(self).hist@.push(item_event(item)),
            final(self).items@ == (if sent {
                old(self).items@.push(item)
            } else {
                old(self).items@
            }),
            final(self).position == position,
    {
        proof {
            use_type_invariant(&*self);
        }
        let ghost h = self.hist@.push(item_event(item));
        assert(h.drop_last() =~= self.hist@);
        let mut before = Self::new();
        core::mem::swap(&mut before, self);
        let mut state = before.state;
        let mut items = before.items;
        match item {
            ProofItem::Element(x) => {
                let repr = x.to_repr();
                append_bytes(&mut state, &repr);
            },
            ProofItem::Commitment(d) => {
                append_output(&mut state, &d);
            },
        }
        assert(state@ == sponge::<F, H>(h));
        if sent {
            items.push(item);
        }
        *self = FiatShamirTranscript {
            state,
            items,
            position,
            hist: Ghost(h),
            hasher: core::marker::PhantomData,
        };
    }

    fn draw(&mut self) -> (r: F)
        ensures
            final(self).hist@ == old(self).hist@.push(Event::Challenge),
            final(self).items == old(self).items,
            final(self).position == old(self).position,
            r.value() == hash_oracle::<F, H>()(old(self).hist@),
    {
        proof {
            use_type_invariant(&*self);
        }
        let digest = H::hash(&self.state);
        let r = element_from_bytes(&digest);
        let mut state: Vec<u8> = Vec::new();
        append_output(&mut state, &digest);
        let ghost h = self.hist@.push(Event::Challenge);
        assert(h.drop_last() =~= self.hist@);
        assert(state@ == sponge::<F, H>(h));
        let mut items: Vec<ProofItem<F>> = Vec::new();
        core::mem::swap(&mut items, &mut self.items);
        let position = self.position;
        *self = FiatShamirTranscript {
            state,
            items,
            position,
            hist: Ghost(h),
            hasher: core::marker::PhantomData,
        };
        r
    }
}

pub proof fn lemma_hash_oracle<F: PrimeField, H: HashFunction>()
    ensures
        oracle_reduced(F::modulus(), hash_oracle::<F, H>()),
{
    F::lemma_modulus();
    assert forall|h: Seq<Event>| 0 <= #[trigger] hash_oracle::<F, H>()(h) < F::modulus() by {
        lemma_mod_canonical(F::modulus(), le_value(H::digest(sponge::<F, H>(h))@) as int);
    }
}

impl<F: PrimeField, H: HashFunction> TranscriptWrite<F> for FiatShamirTranscript<F, H> {
    open spec fn oracle() -> Oracle {
        hash_oracle::<F, H>()
    }

    closed spec fn tx(&self) -> Tx {
        Tx { hist: self.hist@, proof: item_events(self.items@) }
    }

    proof fn lemma_oracle() {
        lemma_hash_oracle::<F, H>();
    }

    fn write_field_element(&mut self, fe: &F) {
        let position = self.position;
        self.absorb(ProofItem::Element(*fe), true, position);
        assert(TranscriptWrite::<F>::tx(&*self).proof =~= TranscriptWrite::<F>::tx(&*old(self)).write(
            fe.value(),
        ).proof);
    }

    fn write_commitment(&mut self, commitment: &Output) {
        let position = self.position;
        self.absorb(ProofItem::Commitment(*commitment), true, position);
        assert(TranscriptWrite::<F>::tx(&*self).proof =~= TranscriptWrite::<F>::tx(&*old(self)).commit(
            *commitment,
        ).proof);
    }

    fn squeeze_challenge(&mut self) -> (r: F) {
        self.draw()
    }
}

impl<F: PrimeField, H: HashFunction> TranscriptRead<F> for FiatShamirTranscript<F, H> {
    open spec fn oracle() -> Oracle {
        hash_oracle::<F, H>()
    }

    closed spec fn rx(&self) -> Rx {
        Rx {
            hist: self.hist@,
            stream: if self.position <= self.items@.len() {
                item_events(self.items@.skip(self.position as int))
            } else {
                Seq::empty()
            },
        }
    }

    proof fn lemma_oracle() {
        lemma_hash_oracle::<F, H>();
    }

    fn read_field_element(&mut self) -> (r: Result<F, Error>) {
        let position = self.position;
        let ghost stream = TranscriptRead::<F>::rx(&*self).stream;
        if position < self.items.len() {
            let item = self.items[position];
            assert(stream[0] == item_event(item));
            match item {
                ProofItem::Element(x) => {
                    self.absorb(item, false, position + 1);
                    assert(TranscriptRead::<F>::rx(&*self).stream =~= stream.skip(1));
                    Ok(x)
                },
                ProofItem::Commitment(_) => Err(Error::Transcript),
            }
        } else {
            Err(Error::Transcript)
        }
    }

    fn read_commitment(&mut self) -> (r: Result<Output, Error>) {
        let position = self.position;
        let ghost stream = TranscriptRead::<F>::rx(&*self).stream;
        if position < self.items.len() {
            let item = self.items[position];
            assert(stream[0] == item_event(item));
            match item {
                ProofItem::Commitment(d) => {
                    self.absorb(item, false, position + 1);
                    assert(TranscriptRead::<F>::rx(&*self).stream =~= stream.skip(1));
                    Ok(d)
                },
                ProofItem::Element(_) => Err(Error::Transcript),
            }
        } else {
            Err(Error::Transcript)
        }
    }

    fn squeeze_challenge(&mut self) -> (r: F) {
        self.draw()
    }
}

} // verus!
