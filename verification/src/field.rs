//! Prime fields, and what the rest of the library asks of one.
use vstd::prelude::*;
use crate::algebra::canonical;

verus! {

/// The first `n` little-endian base-256 digits of `v`.
pub open spec fn le_bytes(v: nat, n: nat) -> Seq<u8>
    decreases n,
{
    if n == 0 {
        Seq::empty()
    } else {
        seq![(v % 256) as u8] + le_bytes(v / 256, (n - 1) as nat)
    }
}

/// The number whose little-endian base-256 digits are `s`.
pub open spec fn le_value(s: Seq<u8>) -> nat
    decreases s.len(),
{
    if s.len() == 0 {
        0
    } else {
        s[0] as nat + 256 * le_value(s.skip(1))
    }
}

/// How many numbers `n` base-256 digits can hold.
pub open spec fn byte_bound(n: nat) -> nat
    decreases n,
{
    if n == 0 {
        1
    } else {
        256 * byte_bound((n - 1) as nat)
    }
}

/// A field of integers modulo `modulus()`.
///
/// An element stands for the integer `value()`, which is always reduced; two elements of one
/// value are interchangeable.
pub trait PrimeField: Sized + Copy {
    /// The order of the field.
    spec fn modulus() -> int;

    /// The reduced integer that the element stands for.
    spec fn value(self) -> int;

    /// How many bytes an element is written in.
    spec fn repr_len() -> nat;

    proof fn lemma_modulus()
        ensures
            Self::modulus() > 0x1_0000_0000,
            Self::modulus() % 2 == 1,
            Self::modulus() % 3 != 0,
            Self::repr_len() >= 4,
            Self::modulus() <= byte_bound(Self::repr_len()),
    ;

    proof fn lemma_value(self)
        ensures
            0 <= self.value() < Self::modulus(),
    ;

    fn from_u64(x: u64) -> (r: Self)
        ensures
            r.value() == x as int % Self::modulus(),
    ;

    fn add(self, other: Self) -> (r: Self)
        ensures
            r.value() == (self.value() + other.value()) % Self::modulus(),
    ;

    fn sub(self, other: Self) -> (r: Self)
        ensures
            r.value() == (self.value() - other.value()) % Self::modulus(),
    ;

    fn mul(self, other: Self) -> (r: Self)
        ensures
            r.value() == (self.value() * other.value()) % Self::modulus(),
    ;

    fn neg(self) -> (r: Self)
        ensures
            r.value() == (-self.value()) % Self::modulus(),
    ;

    /// The multiplicative inverse, which every element but zero has.
    fn invert(self) -> (r: Option<Self>)
        ensures
            r is None <==> self.value() == 0,
            r matches Some(i) ==> (self.value() * i.value()) % Self::modulus() == 1,
    ;

    fn equals(self, other: Self) -> (r: bool)
        ensures
            r == (self.value() == other.value()),
    ;

    /// The little-endian bytes of the element.
    fn to_repr(self) -> (r: Vec<u8>)
        ensures
            r@ == le_bytes(self.value() as nat, Self::repr_len()),
    ;

    fn zero() -> (r: Self)
        ensures
            r.value() == 0,
    ;

    fn one() -> (r: Self)
        ensures
            r.value() == 1,
    ;
}

/// The integers that the elements of `s` stand for.
pub open spec fn vals<F: PrimeField>(s: Seq<F>) -> Seq<int> {
    Seq::new(s.len(), |i: int| s[i].value())
}

/// `vals` of each row.
pub open spec fn vals2<F: PrimeField>(s: Seq<Vec<F>>) -> Seq<Seq<int>> {
    Seq::new(s.len(), |i: int| vals(s[i]@))
}

pub proof fn lemma_vals_canonical<F: PrimeField>(s: Seq<F>)
    ensures
        canonical(F::modulus(), vals(s)),
{
    assert forall|i: int| 0 <= i < s.len() implies 0 <= #[trigger] vals(s)[i] < F::modulus() by {
        s[i].lemma_value();
    }
}

/// Twice `x`.
pub fn double<F: PrimeField>(x: F) -> (r: F)
    ensures
        r.value() == (2 * x.value()) % F::modulus(),
{
    x.add(x)
}

/// `x` times `x`.
pub fn square<F: PrimeField>(x: F) -> (r: F)
    ensures
        r.value() == (x.value() * x.value()) % F::modulus(),
{
    x.mul(x)
}

/// A copy of `v`, element by element.
pub fn copy_elements<F: PrimeField>(v: &Vec<F>) -> (r: Vec<F>)
    ensures
        r@ == v@,
{
    let mut r: Vec<F> = Vec::new();
    let mut i: usize = 0;
    while i < v.len()
        invariant
            i <= v.len(),
            r@ == v@.take(i as int),
        decreases v.len() - i,
    {
        r.push(v[i]);
        assert(v@.take(i as int + 1) == v@.take(i as int).push(v[i as int]));
        i += 1;
    }
    assert(v@.take(v@.len() as int) == v@);
    r
}

/// `n` copies of `x`.
pub fn repeat_element<F: PrimeField>(x: F, n: usize) -> (r: Vec<F>)
    ensures
        r@.len() == n,
        forall|i: int| 0 <= i < n ==> r@[i] == x,
{
    let mut r: Vec<F> = Vec::new();
    let mut i: usize = 0;
    while i < n
        invariant
            i <= n,
            r@.len() == i,
            forall|j: int| 0 <= j < i ==> r@[j] == x,
        decreases n - i,
    {
        r.push(x);
        i += 1;
    }
    r
}

} // verus!
