//! Indices that are drawn from challenges.
use vstd::prelude::*;
use crate::field::{PrimeField, le_bytes};
use crate::transcript::{TranscriptRead, TranscriptWrite, checking};

verus! {

/// The index below `cap` that a challenge stands for: its lowest 32 bits, reduced.
pub open spec fn index_of(challenge: int, cap: int) -> int {
    (challenge % 0x1_0000_0000) % cap
}

/// The lowest 32 bits of an element.
pub fn low_word<F: PrimeField>(x: F) -> (r: u32)
    ensures
        r == x.value() % 0x1_0000_0000,
{
    let repr = x.to_repr();
    proof {
        F::lemma_modulus();
        x.lemma_value();
        let n = F::repr_len();
        let v = x.value() as nat;
        reveal_with_fuel(le_bytes, 5);
        let t1 = le_bytes(v / 256, (n - 1) as nat);
        let t2 = le_bytes(v / 256 / 256, (n - 2) as nat);
        let t3 = le_bytes(v / 256 / 256 / 256, (n - 3) as nat);
        assert(repr@ == seq![(v % 256) as u8] + t1);
        assert(t1 == seq![(v / 256 % 256) as u8] + t2);
        assert(t2 == seq![(v / 256 / 256 % 256) as u8] + t3);
        assert(repr@[0] == v % 256);
        assert(repr@[1] == t1[0]);
        assert(repr@[2] == t1[1]);
        assert(t1[1] == t2[0]);
        assert(repr@[3] == t1[2]);
        assert(t1[2] == t2[1]);
        assert(t2[1] == t3[0]);
        assert(repr@.len() >= 4);
    }
    let b0 = repr[0] as u32;
    let b1 = repr[1] as u32;
    let b2 = repr[2] as u32;
    let b3 = repr[3] as u32;
    b0 + 256 * (b1 + 256 * (b2 + 256 * b3))
}

/// The index below `cap` that an element stands for.
pub fn element_index<F: PrimeField>(x: F, cap: usize) -> (r: usize)
    requires
        cap >= 1,
    ensures
        r == index_of(x.value(), cap as int),
        r < cap,
{
    (low_word(x) as usize) % cap
}

/// Draws an index below `cap` on the sending side.
pub fn squeeze_challenge_idx<F: PrimeField, T: TranscriptWrite<F>>(
    transcript: &mut T,
    cap: usize,
) -> (r: usize)
    requires
        cap >= 1,
    ensures
        final(transcript).tx() == old(transcript).tx().squeeze(),
        r == index_of(T::oracle()(old(transcript).tx().hist), cap as int),
        r < cap,
{
    let challenge = transcript.squeeze_challenge();
    element_index(challenge, cap)
}

/// Draws an index below `cap` on the receiving side.
pub fn read_challenge_idx<F: PrimeField, T: TranscriptRead<F>>(transcript: &mut T, cap: usize) -> (r:
    usize)
    requires
        cap >= 1,
    ensures
        ({
            let (s, v) = checking(old(transcript).rx()).squeeze(T::oracle());
            &&& checking(final(transcript).rx()) == s
            &&& r == index_of(v, cap as int)
            &&& r < cap
        }),
{
    let challenge = transcript.squeeze_challenge();
    element_index(challenge, cap)
}

/// An index that is drawn is below the bound, and every one of the first indices, up to 32 bits, is
/// that of a challenge.
pub proof fn law_index(challenge: int, cap: int, i: int)
    requires
        cap >= 1,
        0 <= i < cap,
        i < 0x1_0000_0000,
    ensures
        0 <= index_of(challenge, cap) < cap,
        index_of(i, cap) == i,
        index_of(challenge + 0x1_0000_0000, cap) == index_of(challenge, cap),
{
    crate::algebra::lemma_mod_canonical(cap, challenge % 0x1_0000_0000);
    crate::algebra::lemma_mod_small(cap, i);
    crate::algebra::lemma_mod_small(0x1_0000_0000, i);
}

} // verus!
