//! Hash functions with outputs of 32 bytes.
use vstd::prelude::*;
use crate::field::{PrimeField, le_bytes};
use blake2::Digest;

verus! {

/// What a hash function returns.
pub type Output = [u8; 32];

/// The Blake2s-256 digest of a message.
pub uninterp spec fn blake2s256_digest(message: Seq<u8>) -> [u8; 32];

/// `blake2::Blake2s256::digest`: a function of the message alone.
#[verifier::external_body]
fn blake2s256(message: &Vec<u8>) -> (r: [u8; 32])
    ensures
        r == blake2s256_digest(message@),
{
    blake2::Blake2s256::digest(message).into()
}

/// A hash function.
pub trait HashFunction: Sized {
    /// The digest of a message.
    spec fn digest(message: Seq<u8>) -> Output;

    /// Computes the digest of a message.
    fn hash(message: &Vec<u8>) -> (r: Output)
        ensures
            r == Self::digest(message@),
    ;
}

/// Blake2s with outputs of 256 bits.
#[derive(Clone, Copy, Debug)]
pub struct Blake2s256 {}

impl HashFunction for Blake2s256 {
    open spec fn digest(message: Seq<u8>) -> Output {
        blake2s256_digest(message)
    }

    fn hash(message: &Vec<u8>) -> (r: Output) {
        blake2s256(message)
    }
}

/// The bytes of the field elements with values `v`, one after the other.
pub open spec fn element_bytes(v: Seq<int>, width: nat) -> Seq<u8>
    decreases v.len(),
{
    if v.len() == 0 {
        Seq::empty()
    } else {
        element_bytes(v.drop_last(), width) + le_bytes(v.last() as nat, width)
    }
}

/// The digest of field elements: that of their bytes.
pub open spec fn digest_elements<F: PrimeField, H: HashFunction>(v: Seq<int>) -> Output {
    H::digest(element_bytes(v, F::repr_len()))
}

/// The digest of two digests.
pub open spec fn digest_pair<H: HashFunction>(a: Output, b: Output) -> Output {
    H::digest(a@ + b@)
}

/// Appends `more` to `bytes`.
pub fn append_bytes(bytes: &mut Vec<u8>, more: &Vec<u8>)
    ensures
        final(bytes)@ == old(bytes)@ + more@,
{
    let mut i: usize = 0;
    while i < more.len()
        invariant
            i <= more.len(),
            bytes@ == old(bytes)@ + more@.take(i as int),
        decreases more.len() - i,
    {
        bytes.push(more[i]);
        assert(more@.take(i as int + 1) == more@.take(i as int).push(more[i as int]));
        i += 1;
    }
    assert(more@.take(more@.len() as int) == more@);
}

/// Appends a digest to `bytes`.
pub fn append_output(bytes: &mut Vec<u8>, more: &Output)
    ensures
        final(bytes)@ == old(bytes)@ + more@,
{
    let mut i: usize = 0;
    while i < 32
        invariant
            i <= 32,
            bytes@ == old(bytes)@ + more@.take(i as int),
        decreases 32 - i,
    {
        bytes.push(more[i]);
        assert(more@.take(i as int + 1) == more@.take(i as int).push(more[i as int]));
        i += 1;
    }
    assert(more@.take(32) == more@);
}

/// Hashes field elements.
pub fn hash_elements<F: PrimeField, H: HashFunction>(v: &Vec<F>) -> (r: Output)
    ensures
        r == digest_elements::<F, H>(crate::field::vals(v@)),
{
    let mut bytes: Vec<u8> = Vec::new();
    let mut i: usize = 0;
    let ghost w = F::repr_len();
    let ghost s = crate::field::vals(v@);
    while i < v.len()
        invariant
            i <= v.len(),
            w == F::repr_len(),
            s == crate::field::vals(v@),
            bytes@ == element_bytes(s.take(i as int), w),
        decreases v.len() - i,
    {
        let e = v[i].to_repr();
        append_bytes(&mut bytes, &e);
        assert(s.take(i as int + 1).drop_last() == s.take(i as int));
        i += 1;
    }
    assert(s.take(s.len() as int) == s);
    H::hash(&bytes)
}

/// Hashes two digests.
pub fn hash_pair<H: HashFunction>(a: &Output, b: &Output) -> (r: Output)
    ensures
        r == digest_pair::<H>(*a, *b),
{
    let mut bytes: Vec<u8> = Vec::new();
    append_output(&mut bytes, a);
    append_output(&mut bytes, b);
    assert(bytes@ == a@ + b@);
    H::hash(&bytes)
}

/// Whether two digests are equal.
pub fn same_output(a: &Output, b: &Output) -> (r: bool)
    ensures
        r == (*a == *b),
{
    let mut i: usize = 0;
    while i < 32
        invariant
            i <= 32,
            forall|j: int| 0 <= j < i ==> a[j] == b[j],
        decreases 32 - i,
    {
        if a[i] != b[i] {
            return false;
        }
        i += 1;
    }
    assert(*a =~= *b);
    true
}

} // verus!
