//! The scalar field of the curve bn256.
use vstd::prelude::*;
use crate::algebra::{
    lemma_mod_canonical, lemma_cong_add, lemma_cong_mod, lemma_cong_mul, lemma_cong_sub,
};
use crate::field::{PrimeField, byte_bound, le_bytes};
use halo2curves::ff::Field;

verus! {

/// The order of the field.
pub open spec fn bn256_order() -> int {
    0x30644e72e131a029b85045b68181585d2833e84879b9709143e1f593f0000001int
}

/// The integer with the little-endian base-2^64 digits `l`.
pub open spec fn limbs_value(l: [u64; 4]) -> int {
    l[0] + 0x1_0000_0000_0000_0000int * l[1]
        + 0x1_0000_0000_0000_0000_0000_0000_0000_0000int * l[2]
        + 0x1_0000_0000_0000_0000_0000_0000_0000_0000_0000_0000_0000_0000int * l[3]
}

/// `halo2curves::bn256::Fr::from_raw`, `+` and `to_bytes`: the reduced sum of two integers that
/// are given by their digits.
#[verifier::external_body]
fn bn256_add(a: [u64; 4], b: [u64; 4]) -> (r: [u64; 4])
    ensures
        limbs_value(r) == (limbs_value(a) + limbs_value(b)) % bn256_order(),
{
    let c = (halo2curves::bn256::Fr::from_raw(a) + halo2curves::bn256::Fr::from_raw(b)).to_bytes();
    [
        u64::from_le_bytes(c[0..8].try_into().unwrap()),
        u64::from_le_bytes(c[8..16].try_into().unwrap()),
        u64::from_le_bytes(c[16..24].try_into().unwrap()),
        u64::from_le_bytes(c[24..32].try_into().unwrap()),
    ]
}

/// `halo2curves::bn256::Fr::from_raw`, `-` and `to_bytes`: the reduced difference of two integers
/// that are given by their digits.
#[verifier::external_body]
fn bn256_sub(a: [u64; 4], b: [u64; 4]) -> (r: [u64; 4])
    ensures
        limbs_value(r) == (limbs_value(a) - limbs_value(b)) % bn256_order(),
{
    let c = (halo2curves::bn256::Fr::from_raw(a) - halo2curves::bn256::Fr::from_raw(b)).to_bytes();
    [
        u64::from_le_bytes(c[0..8].try_into().unwrap()),
        u64::from_le_bytes(c[8..16].try_into().unwrap()),
        u64::from_le_bytes(c[16..24].try_into().unwrap()),
        u64::from_le_bytes(c[24..32].try_into().unwrap()),
    ]
}

/// `halo2curves::bn256::Fr::from_raw`, `*` and `to_bytes`: the reduced product of two integers
/// that are given by their digits.
#[verifier::external_body]
fn bn256_mul(a: [u64; 4], b: [u64; 4]) -> (r: [u64; 4])
    ensures
        limbs_value(r) == (limbs_value(a) * limbs_value(b)) % bn256_order(),
{
    let c = (halo2curves::bn256::Fr::from_raw(a) * halo2curves::bn256::Fr::from_raw(b)).to_bytes();
    [
        u64::from_le_bytes(c[0..8].try_into().unwrap()),
        u64::from_le_bytes(c[8..16].try_into().unwrap()),
        u64::from_le_bytes(c[16..24].try_into().unwrap()),
        u64::from_le_bytes(c[24..32].try_into().unwrap()),
    ]
}

/// `halo2curves::bn256::Fr::from_raw`, `invert` and `to_bytes`: the reduced inverse of an integer
/// that is given by its digits, `None` exactly for the multiples of the order.
#[verifier::external_body]
fn bn256_invert(a: [u64; 4]) -> (r: Option<[u64; 4]>)
    ensures
        r is None <==> limbs_value(a) % bn256_order() == 0,
        r matches Some(i) ==> 0 <= limbs_value(i) < bn256_order()
            && (limbs_value(a) * limbs_value(i)) % bn256_order() == 1,
{
    let c = Option::<halo2curves::bn256::Fr>::from(
        halo2curves::bn256::Fr::from_raw(a).invert(),
    )?.to_bytes();
    Some([
        u64::from_le_bytes(c[0..8].try_into().unwrap()),
        u64::from_le_bytes(c[8..16].try_into().unwrap()),
        u64::from_le_bytes(c[16..24].try_into().unwrap()),
        u64::from_le_bytes(c[24..32].try_into().unwrap()),
    ])
}

/// `halo2curves::bn256::Fr::from_raw` and `==`: whether two integers that are given by their
/// digits have one remainder.
#[verifier::external_body]
fn bn256_eq(a: [u64; 4], b: [u64; 4]) -> (r: bool)
    ensures
        r == (limbs_value(a) % bn256_order() == limbs_value(b) % bn256_order()),
{
    halo2curves::bn256::Fr::from_raw(a) == halo2curves::bn256::Fr::from_raw(b)
}

/// `halo2curves::bn256::Fr::from_raw` and `to_bytes`: the 32 little-endian bytes of the remainder
/// of an integer that is given by its digits.
#[verifier::external_body]
fn bn256_to_bytes(a: [u64; 4]) -> (r: Vec<u8>)
    ensures
        r@ == le_bytes((limbs_value(a) % bn256_order()) as nat, 32),
{
    halo2curves::bn256::Fr::from_raw(a).to_bytes().to_vec()
}

/// An element of the scalar field of bn256.
#[derive(Clone, Copy, Debug)]
pub struct Fr {
    limbs: [u64; 4],
}

impl Fr {
    /// The element that an integer, given by its little-endian base-2^64 digits, is congruent to.
    pub fn from_raw(limbs: [u64; 4]) -> (r: Fr)
        ensures
            r.value() == limbs_value(limbs) % bn256_order(),
    {
        Fr { limbs }
    }
}

impl PrimeField for Fr {
    open spec fn modulus() -> int {
        bn256_order()
    }

    closed spec fn value(self) -> int {
        limbs_value(self.limbs) % bn256_order()
    }

    open spec fn repr_len() -> nat {
        32
    }

    proof fn lemma_modulus() {
        reveal_with_fuel(byte_bound, 33);
    }

    proof fn lemma_value(self) {
        lemma_mod_canonical(bn256_order(), limbs_value(self.limbs));
    }

    fn from_u64(x: u64) -> (r: Self) {
        let limbs: [u64; 4] = [x, 0, 0, 0];
        assert(limbs_value(limbs) == x);
        Fr { limbs }
    }

    fn add(self, other: Self) -> (r: Self) {
        let r = Fr { limbs: bn256_add(self.limbs, other.limbs) };
        proof {
            let p = bn256_order();
            let a = limbs_value(self.limbs);
            let b = limbs_value(other.limbs);
            lemma_cong_mod(p, a);
            lemma_cong_mod(p, b);
            lemma_cong_add(p, a % p, a, b % p, b);
            lemma_mod_canonical(p, a + b);
        }
        r
    }

    fn sub(self, other: Self) -> (r: Self) {
        let r = Fr { limbs: bn256_sub(self.limbs, other.limbs) };
        proof {
            let p = bn256_order();
            let a = limbs_value(self.limbs);
            let b = limbs_value(other.limbs);
            lemma_cong_mod(p, a);
            lemma_cong_mod(p, b);
            lemma_cong_sub(p, a % p, a, b % p, b);
            lemma_mod_canonical(p, a - b);
        }
        r
    }

    fn mul(self, other: Self) -> (r: Self) {
        let r = Fr { limbs: bn256_mul(self.limbs, other.limbs) };
        proof {
            let p = bn256_order();
            let a = limbs_value(self.limbs);
            let b = limbs_value(other.limbs);
            lemma_cong_mod(p, a);
            lemma_cong_mod(p, b);
            lemma_cong_mul(p, a % p, a, b % p, b);
            lemma_mod_canonical(p, a * b);
        }
        r
    }

    fn neg(self) -> (r: Self) {
        Self::zero().sub(self)
    }

    fn invert(self) -> (r: Option<Self>) {
        match bn256_invert(self.limbs) {
            None => None,
            Some(limbs) => {
                let r = Fr { limbs };
                proof {
                    let p = bn256_order();
                    let a = limbs_value(self.limbs);
                    let b = limbs_value(limbs);
                    lemma_cong_mod(p, a);
                    lemma_cong_mod(p, b);
                    lemma_cong_mul(p, a % p, a, b % p, b);
                }
                Some(r)
            },
        }
    }

    fn equals(self, other: Self) -> (r: bool) {
        bn256_eq(self.limbs, other.limbs)
    }

    fn to_repr(self) -> (r: Vec<u8>) {
        bn256_to_bytes(self.limbs)
    }

    fn zero() -> (r: Self) {
        let limbs: [u64; 4] = [0, 0, 0, 0];
        assert(limbs_value(limbs) == 0);
        Fr { limbs }
    }

    fn one() -> (r: Self) {
        let limbs: [u64; 4] = [1, 0, 0, 0];
        assert(limbs_value(limbs) == 1);
        Fr { limbs }
    }
}

} // verus!
