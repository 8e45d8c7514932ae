use halo2_proofs::bn256::Fr;
use halo2_proofs::field::Field;
use halo2_proofs::helpers::SerdePrimeField;
use halo2_proofs::plonk::Assigned;
use halo2_proofs::poly::codec::{encoded_len, ReadError};
use halo2_proofs::poly::{
    batch_invert_assigned, Coeff, Error, ExtendedLagrangeCoeff, Host, LagrangeCoeff, Polynomial,
    Rotation, Storage,
};
use halo2_proofs::SerdeFormat;

fn fr(n: u64) -> Fr {
    let mut bytes = [0u8; 32];
    bytes[..8].copy_from_slice(&n.to_le_bytes());
    <Fr as SerdePrimeField>::from_repr(&bytes).unwrap()
}

fn poly<B>(values: &[u64]) -> Polynomial<Fr, B> {
    Polynomial::new(values.iter().map(|v| fr(*v)).collect())
}

fn is<B>(p: &Polynomial<Fr, B>, values: &[u64]) -> bool {
    let expected: Vec<Fr> = values.iter().map(|v| fr(*v)).collect();
    p.values() == &expected[..]
}

#[test]
fn backing_is_handed_out_and_taken_back() {
    let mut p = Polynomial::<Fr, Coeff>::from_backing(vec![fr(1), fr(2)]);
    assert_eq!(p.backing().len(), 2);
    p.backing_mut().push(fr(3));
    assert_eq!(p.len(), 3);
    assert_eq!(p.num_coeffs(), 3);
    assert!(!p.is_empty());
    assert!(is(&p, &[1, 2, 3]));
    assert_eq!(p.into_backing(), vec![fr(1), fr(2), fr(3)]);
    assert!(Polynomial::<Fr, Coeff>::new(vec![]).is_empty());
    assert!(!<Host as Storage<Fr>>::IS_DEVICE);
    assert_eq!(<Host as Storage<Fr>>::backing_len(&vec![fr(1)]), 1);
}

#[test]
fn values_can_be_read_and_changed_in_place() {
    let mut p: Polynomial<Fr, LagrangeCoeff> = poly(&[1, 2, 3, 4]);
    assert_eq!(p.iter().count(), 4);
    p.values_mut()[0] = fr(10);
    for v in p.iter_mut() {
        *v = v.add(&fr(1));
    }
    assert!(is(&p, &[11, 3, 4, 5]));
    *p.index_mut(3) = fr(6);
    p.index_range_mut(1, 3)[0] = fr(7);
    p.index_from_mut(2)[0] = fr(8);
    assert!(is(&p, &[11, 7, 8, 6]));
    assert_eq!(p[0], fr(11));
    assert_eq!(p[1..3], [fr(7), fr(8)]);
    assert_eq!(p.index_from(2), &[fr(8), fr(6)]);
    p.reverse();
    assert_eq!(p.first(), Some(&fr(6)));
    assert_eq!(p.into_values(), vec![fr(6), fr(8), fr(7), fr(11)]);
}

#[test]
fn clones_are_independent() {
    let p: Polynomial<Fr, Coeff> = poly(&[1, 2]);
    let mut q = p.clone();
    q.values_mut()[0] = fr(5);
    assert!(is(&p, &[1, 2]));
    assert!(is(&q, &[5, 2]));
}

#[test]
fn addition_and_subtraction_undo_each_other() {
    let p: Polynomial<Fr, Coeff> = poly(&[1, 20, 300]);
    let q: Polynomial<Fr, Coeff> = poly(&[4, 50, 600]);
    let sum = p.clone() + &q;
    assert!(is(&sum, &[5, 70, 900]));
    assert!(is(&(sum - &q), &[1, 20, 300]));
    let difference = p.clone() - &q;
    assert!(is(&(difference + &q), &[1, 20, 300]));
    assert!(is(&(q + &p), &[5, 70, 900]));
}

#[test]
fn missing_values_count_as_zero() {
    let p: Polynomial<Fr, Coeff> = poly(&[1, 2, 3]);
    let q: Polynomial<Fr, Coeff> = poly(&[10]);
    assert!(is(&(p.clone() + &q), &[11, 2, 3]));
    assert!(is(&(q + &p), &[11]));
}

#[test]
fn scaling_distributes_over_addition() {
    let p: Polynomial<Fr, Coeff> = poly(&[1, 2]);
    let q: Polynomial<Fr, Coeff> = poly(&[3, 4]);
    let scaled = (p.clone() + &q) * fr(5);
    assert!(is(&scaled, &[20, 30]));
    assert!(is(&(p.clone() * fr(5) + &(q * fr(5))), &[20, 30]));
    assert!(is(&(p.clone() * Fr::zero()), &[0, 0]));
    assert!(is(&(p * Fr::one()), &[1, 2]));
}

#[test]
fn subtracting_a_scalar_touches_the_first_value() {
    let p: Polynomial<Fr, Coeff> = poly(&[9, 2, 3]);
    assert!(is(&(&p - fr(4)), &[5, 2, 3]));
}

#[test]
fn rotation_is_cyclic() {
    let p: Polynomial<Fr, LagrangeCoeff> = poly(&[0, 1, 2, 3]);
    assert!(is(&p.rotate(Rotation::cur()), &[0, 1, 2, 3]));
    assert!(is(&p.rotate(Rotation::next()), &[1, 2, 3, 0]));
    assert!(is(&p.rotate(Rotation::prev()), &[3, 0, 1, 2]));
    assert!(is(&p.rotate(Rotation(4)), &[0, 1, 2, 3]));
    assert!(is(&p.rotate(Rotation(-4)), &[0, 1, 2, 3]));
    assert!(is(&p.rotate(Rotation(3)).rotate(Rotation(-3)), &[0, 1, 2, 3]));
    assert!(is(&p.rotate(Rotation(1)).rotate(Rotation(2)), &[3, 0, 1, 2]));
}

#[test]
fn rotations_name_their_distance() {
    assert_eq!(Rotation::cur().0, 0);
    assert_eq!(Rotation::prev().0, -1);
    assert_eq!(Rotation::next().0, 1);
}

#[test]
fn fractions_are_inverted_in_one_batch() {
    let a = [Assigned::Rational(fr(6), fr(3)), Assigned::Zero, Assigned::Trivial(fr(5))];
    let b = [
        Assigned::Rational(fr(8), Fr::zero()),
        Assigned::Rational(fr(10), fr(5)),
        Assigned::Rational(fr(1), fr(1)),
    ];
    let r = batch_invert_assigned(vec![&a[..], &b[..]]);
    assert_eq!(r.len(), 2);
    assert!(is(&r[0], &[2, 0, 5]));
    assert!(is(&r[1], &[0, 2, 1]));
    assert!(batch_invert_assigned::<Fr>(vec![]).is_empty());
}

#[test]
fn invert_multiplies_numerators() {
    let p = Polynomial::<Assigned<Fr>, LagrangeCoeff>::new(vec![
        Assigned::Rational(fr(6), fr(3)),
        Assigned::Trivial(fr(4)),
        Assigned::Zero,
    ]);
    let inverses = vec![fr(7), fr(1), fr(9)];
    assert!(is(&p.invert(inverses), &[42, 4, 0]));
}

#[test]
fn what_was_written_is_read_back() {
    let p: Polynomial<Fr, Coeff> = poly(&[1, 2, 3]);
    for format in [SerdeFormat::Processed, SerdeFormat::RawBytes, SerdeFormat::RawBytesUnchecked] {
        let mut bytes = Vec::new();
        p.write(&mut bytes, format);
        assert_eq!(bytes.len(), 4 + 3 * 32);
        bytes.push(0xaa);
        let (q, len) = Polynomial::<Fr, Coeff>::read(&bytes, format).unwrap();
        assert!(is(&q, &[1, 2, 3]));
        assert_eq!(len, 4 + 3 * 32);
    }
}

#[test]
fn encoding_starts_with_a_big_endian_length() {
    let p: Polynomial<Fr, Coeff> = poly(&[258]);
    let mut bytes = vec![0xff];
    p.write(&mut bytes, SerdeFormat::Processed);
    assert_eq!(bytes[..7], [0xff, 0, 0, 0, 1, 2, 1]);
    assert_eq!(bytes.len(), 37);
    let mut raw = Vec::new();
    p.write(&mut raw, SerdeFormat::RawBytes);
    assert_ne!(raw[4..], bytes[5..]);
}

#[test]
fn reading_refuses_what_was_not_written() {
    let short = Polynomial::<Fr, Coeff>::read(&[0, 0, 0], SerdeFormat::Processed);
    assert!(matches!(short, Err(ReadError::UnexpectedEnd)));
    let missing = Polynomial::<Fr, Coeff>::read(&[0, 0, 0, 1, 5], SerdeFormat::Processed);
    assert!(matches!(missing, Err(ReadError::UnexpectedEnd)));
    let mut large = vec![0, 0, 0, 1];
    large.extend([0xff; 32]);
    let invalid = Polynomial::<Fr, Coeff>::read(&large, SerdeFormat::Processed);
    assert!(matches!(invalid, Err(ReadError::InvalidElement)));
    let invalid = Polynomial::<Fr, Coeff>::read(&large, SerdeFormat::RawBytes);
    assert!(matches!(invalid, Err(ReadError::InvalidElement)));
    // without a check the same bytes are read
    let (reduced, len) =
        Polynomial::<Fr, Coeff>::read(&large, SerdeFormat::RawBytesUnchecked).unwrap();
    assert_eq!((reduced.len(), len), (1, 36));
    let short = Polynomial::<Fr, Coeff>::read(&large[..35], SerdeFormat::RawBytesUnchecked);
    assert!(matches!(short, Err(ReadError::UnexpectedEnd)));
    let (empty, len) = Polynomial::<Fr, Coeff>::read(&[0; 4], SerdeFormat::RawBytes).unwrap();
    assert!(empty.is_empty());
    assert_eq!(len, 4);
}

#[test]
fn text_shows_length_and_residency() {
    let p: Polynomial<Fr, ExtendedLagrangeCoeff> = poly(&[0; 120]);
    assert_eq!(p.debug_text(), "Polynomial { len: 120, residency: \"Host\" }");
    let q: Polynomial<Fr, Coeff> = poly(&[]);
    assert_eq!(q.debug_text(), "Polynomial { len: 0, residency: \"Host\" }");
}

#[test]
fn errors_can_be_shown() {
    assert_eq!(format!("{:?}", Error::OpeningError), "OpeningError");
    assert_eq!(format!("{:?}", Error::SamplingError), "SamplingError");
}

#[test]
fn headers_tell_the_length() {
    assert_eq!(encoded_len::<Fr>([0, 0, 0, 0]), Some(4));
    assert_eq!(encoded_len::<Fr>([0, 0, 1, 2]), Some(4 + 258 * 32));
}
