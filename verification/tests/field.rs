use brakingbase::bits::{log2, next_power_of_two, pow_two, reverse_bits};
use brakingbase::field::{double, repeat_element, square, PrimeField};
use brakingbase::fr::Fr;
use brakingbase::hash::{hash_elements, hash_pair, same_output, Blake2s256, HashFunction};
use brakingbase::indices::{element_index, low_word};
use brakingbase::transcript::element_from_bytes;

const ORDER: [u64; 4] = [
    0x43e1f593f0000001,
    0x2833e84879b97091,
    0xb85045b68181585d,
    0x30644e72e131a029,
];

fn number(x: u64) -> Fr {
    Fr::from_u64(x)
}

fn minus_one() -> Fr {
    Fr::from_raw([ORDER[0] - 1, ORDER[1], ORDER[2], ORDER[3]])
}

#[test]
fn sums_wrap_at_the_order() {
    assert!(number(2).add(number(3)).equals(number(5)));
    assert!(minus_one().add(number(1)).equals(number(0)));
    assert!(minus_one().add(number(3)).equals(number(2)));
    assert!(!minus_one().add(number(3)).equals(minus_one()));
}

#[test]
fn differences_wrap_below_zero() {
    assert!(number(7).sub(number(3)).equals(number(4)));
    assert!(number(0).sub(number(1)).equals(minus_one()));
    assert!(number(1).neg().equals(minus_one()));
    assert!(number(0).neg().equals(number(0)));
}

#[test]
fn products_are_reduced() {
    assert!(number(6).mul(number(7)).equals(number(42)));
    assert!(minus_one().mul(minus_one()).equals(number(1)));
    assert!(minus_one().mul(number(2)).equals(number(2).neg()));
    assert!(square(number(12)).equals(number(144)));
    assert!(double(number(21)).equals(number(42)));
}

#[test]
fn every_element_but_zero_has_an_inverse() {
    let half = number(2).invert().unwrap();
    assert!(half.mul(number(2)).equals(number(1)));
    assert!(!half.equals(number(2)));
    assert!(number(1).invert().unwrap().equals(number(1)));
    assert!(minus_one().invert().unwrap().equals(minus_one()));
    assert!(number(0).invert().is_none());
    assert!(Fr::from_raw(ORDER).invert().is_none());
}

#[test]
fn integers_are_taken_modulo_the_order() {
    assert!(Fr::from_raw(ORDER).equals(number(0)));
    assert!(Fr::from_raw([ORDER[0] + 5, ORDER[1], ORDER[2], ORDER[3]]).equals(number(5)));
    assert!(Fr::from_raw([9, 0, 0, 0]).equals(number(9)));
    assert!(!Fr::from_raw([0, 1, 0, 0]).equals(number(0)));
}

#[test]
fn bytes_are_little_endian_and_reduced() {
    let mut expected = vec![0u8; 32];
    expected[0] = 0x34;
    expected[1] = 0x12;
    assert_eq!(number(0x1234).to_repr(), expected);
    assert_eq!(Fr::from_raw(ORDER).to_repr(), vec![0u8; 32]);
    let mut bytes = Vec::new();
    for limb in [ORDER[0] - 1, ORDER[1], ORDER[2], ORDER[3]] {
        bytes.extend_from_slice(&limb.to_le_bytes());
    }
    assert_eq!(minus_one().to_repr(), bytes);
}

#[test]
fn elements_come_back_from_their_bytes() {
    let mut bytes = [0u8; 32];
    bytes[0] = 7;
    bytes[1] = 1;
    let x: Fr = element_from_bytes(&bytes);
    assert!(x.equals(number(263)));
    let mut order = [0u8; 32];
    for (i, limb) in ORDER.iter().enumerate() {
        order[8 * i..8 * i + 8].copy_from_slice(&limb.to_le_bytes());
    }
    let y: Fr = element_from_bytes(&order);
    assert!(y.equals(number(0)));
}

#[test]
fn indices_come_from_the_lowest_word() {
    assert_eq!(low_word(number(0x1_0000_0005)), 5);
    assert_eq!(low_word(number(77)), 77);
    assert_eq!(element_index(number(0x1_0000_0005), 4), 1);
    assert_eq!(element_index(number(1000), 7), 6);
}

#[test]
fn repeated_elements() {
    let v = repeat_element(number(4), 3);
    assert_eq!(v.len(), 3);
    assert!(v.iter().all(|x| x.equals(number(4))));
}

#[test]
fn blake2s_digest_of_nothing() {
    let digest = Blake2s256::hash(&Vec::new());
    let expected: [u8; 32] = [
        0x69, 0x21, 0x7a, 0x30, 0x79, 0x90, 0x80, 0x94, 0xe1, 0x11, 0x21, 0xd0, 0x42, 0x35, 0x4a, 0x7c,
        0x1f, 0x55, 0xb6, 0x48, 0x2c, 0xa1, 0xa5, 0x1e, 0x1b, 0x25, 0x0d, 0xfd, 0x1e, 0xd0, 0xee, 0xf9,
    ];
    assert!(same_output(&digest, &expected));
}

#[test]
fn digests_join_their_inputs() {
    let a = [1u8; 32];
    let b = [2u8; 32];
    let mut both = a.to_vec();
    both.extend_from_slice(&b);
    assert_eq!(hash_pair::<Blake2s256>(&a, &b), Blake2s256::hash(&both));
    assert_ne!(hash_pair::<Blake2s256>(&a, &b), hash_pair::<Blake2s256>(&b, &a));
    let elements = vec![number(1), number(2)];
    let mut bytes = number(1).to_repr();
    bytes.extend(number(2).to_repr());
    assert_eq!(hash_elements::<Fr, Blake2s256>(&elements), Blake2s256::hash(&bytes));
}

#[test]
fn powers_of_two() {
    assert_eq!(log2(1), 0);
    assert_eq!(log2(1024), 10);
    assert_eq!(log2(1500), 10);
    assert_eq!(pow_two(12), 4096);
    assert_eq!(next_power_of_two(1), 1);
    assert_eq!(next_power_of_two(5), 8);
    assert_eq!(next_power_of_two(8), 8);
    assert_eq!(reverse_bits(0b0011, 4), 0b1100);
    assert_eq!(reverse_bits(1, 1), 1);
}
