use ff::PrimeField;
use halo2_proofs::bn256::{Fr, OsRandom, G1};
use halo2_proofs::curve::Curve;
use halo2_proofs::field::Field;
use halo2_proofs::helpers::SerdePrimeField;
use halo2_proofs::rng::RandomSource;

fn fr(n: u64) -> Fr {
    let mut bytes = [0u8; 32];
    bytes[..8].copy_from_slice(&n.to_le_bytes());
    <Fr as SerdePrimeField>::from_repr(&bytes).unwrap()
}

fn small(bytes: [u8; 32]) -> u64 {
    assert_eq!(bytes[8..], [0u8; 24]);
    u64::from_le_bytes(bytes[..8].try_into().unwrap())
}

fn coordinate(n: u64) -> [u8; 32] {
    let mut bytes = [0u8; 32];
    bytes[..8].copy_from_slice(&n.to_le_bytes());
    bytes
}

#[test]
fn arithmetic_agrees_with_the_curve_crate() {
    let (a, b) = (1_000_003u64, 0xffff_ffff_ffff_fff1u64);
    let (x, y) = (halo2curves::bn256::Fr::from(a), halo2curves::bn256::Fr::from(b));
    let repr = |e: halo2curves::bn256::Fr| {
        let bytes: [u8; 32] = e.to_repr().into();
        bytes.to_vec()
    };
    assert_eq!(fr(a).add(&fr(b)).to_repr(), repr(x + y));
    assert_eq!(fr(a).sub(&fr(b)).to_repr(), repr(x - y));
    assert_eq!(fr(a).mul(&fr(b)).to_repr(), repr(x * y));
    assert_eq!(fr(a).pow(77).to_repr(), repr(ff::Field::pow(&x, [77u64])));
}

#[test]
fn small_results_are_exact() {
    assert!(fr(20).add(&fr(22)).is_equal(&fr(42)));
    assert!(fr(64).sub(&fr(22)).is_equal(&fr(42)));
    assert!(fr(6).mul(&fr(7)).is_equal(&fr(42)));
    assert!(fr(3).pow(4).is_equal(&fr(81)));
    assert!(fr(5).pow(0).is_equal(&Fr::one()));
    assert!(Fr::zero().add(&Fr::one()).is_equal(&Fr::one()));
    assert!(!fr(1).is_equal(&fr(2)));
}

#[test]
fn subtraction_wraps_around_the_modulus() {
    let minus_one = Fr::zero().sub(&Fr::one());
    let modulus = "30644e72e131a029b85045b68181585d2833e84879b9709143e1f593f0000000";
    let text: String = minus_one.to_repr().iter().rev().map(|b| format!("{:02x}", b)).collect();
    assert_eq!(text, modulus);
    assert!(minus_one.add(&Fr::one()).is_equal(&Fr::zero()));
}

#[test]
fn inversion_leaves_zero_alone() {
    let inverses = Fr::batch_invert(vec![fr(2), Fr::zero(), fr(3), Fr::one()]);
    assert_eq!(inverses.len(), 4);
    assert!(inverses[0].mul(&fr(2)).is_equal(&Fr::one()));
    assert!(!inverses[0].is_equal(&fr(2)));
    assert!(inverses[1].is_equal(&Fr::zero()));
    assert!(inverses[2].mul(&fr(3)).is_equal(&Fr::one()));
    assert!(inverses[3].is_equal(&Fr::one()));
}

#[test]
fn canonical_bytes_are_below_the_modulus() {
    let mut modulus = Fr::zero().sub(&Fr::one()).to_repr();
    assert!(<Fr as SerdePrimeField>::from_repr(&modulus).is_some());
    // the lowest byte of the modulus is one
    modulus[0] += 1;
    assert!(<Fr as SerdePrimeField>::from_repr(&modulus).is_none());
    assert!(Fr::from_raw_bytes(&modulus).is_none());
    assert!(<Fr as SerdePrimeField>::from_repr(&[0xff; 32]).is_none());
}

#[test]
fn raw_bytes_hold_the_montgomery_form() {
    let raw = Fr::one().to_raw_bytes();
    let mut radix = Fr::one();
    for _ in 0..256 {
        radix = radix.add(&radix);
    }
    assert_eq!(raw, radix.to_repr());
    assert_ne!(raw, Fr::one().to_repr());
    assert!(Fr::from_raw_bytes(&raw).unwrap().is_equal(&Fr::one()));
    assert!(Fr::from_raw_bytes_unchecked(&raw).is_equal(&Fr::one()));
    // bytes that are not below the modulus are reduced, if they are not checked
    let mut modulus = Fr::zero().sub(&Fr::one()).to_repr();
    modulus[0] += 1;
    assert!(Fr::from_raw_bytes(&modulus).is_none());
    assert!(Fr::from_raw_bytes_unchecked(&modulus).is_equal(&Fr::zero()));
    assert!(Fr::from_raw_bytes_unchecked(&[0xff; 32])
        .is_equal(&Fr::one().sub(&Fr::from_raw_bytes_unchecked(&coordinate(1)))));
}

#[test]
fn random_elements_differ() {
    let mut rng = OsRandom::new();
    let a = rng.random();
    let b = rng.random();
    assert!(!a.is_equal(&b));
}

#[test]
fn normalization_divides_by_the_third_coordinate() {
    let a = G1::from_coordinates(coordinate(6), coordinate(15), coordinate(3)).unwrap();
    let infinity = G1::from_coordinates(coordinate(0), coordinate(1), coordinate(0)).unwrap();
    let b = G1::from_coordinates(coordinate(1), coordinate(2), coordinate(1)).unwrap();
    let affine = G1::batch_normalize(&vec![a, infinity, b]);
    let read: Vec<(u64, u64)> = affine
        .iter()
        .map(|p| {
            let (x, y) = p.to_coordinates();
            (small(x), small(y))
        })
        .collect();
    assert_eq!(read, vec![(2, 5), (0, 0), (1, 2)]);
}

#[test]
fn coordinates_are_below_the_modulus() {
    assert!(G1::from_coordinates([0xff; 32], coordinate(1), coordinate(1)).is_none());
    assert!(G1::from_coordinates(coordinate(1), [0xff; 32], coordinate(1)).is_none());
    assert!(G1::from_coordinates(coordinate(1), coordinate(1), [0xff; 32]).is_none());
}
