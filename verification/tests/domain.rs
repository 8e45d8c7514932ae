use ff::PrimeField;
use halo2_proofs::arithmetic::eval_polynomial;
use halo2_proofs::bn256::Fr;
use halo2_proofs::fft::fft;
use halo2_proofs::field::Field;
use halo2_proofs::helpers::SerdePrimeField;
use halo2_proofs::plonk::Assigned;
use halo2_proofs::poly::{EvaluationDomain, Rotation};

fn fr(n: u64) -> Fr {
    let mut bytes = [0u8; 32];
    bytes[..8].copy_from_slice(&n.to_le_bytes());
    <Fr as SerdePrimeField>::from_repr(&bytes).unwrap()
}

fn root(k: u32) -> Fr {
    let mut root = halo2curves::bn256::Fr::ROOT_OF_UNITY;
    for _ in k..halo2curves::bn256::Fr::S {
        root = root * root;
    }
    let bytes: [u8; 32] = root.to_repr().into();
    <Fr as SerdePrimeField>::from_repr(&bytes).unwrap()
}

fn domain(k: u32) -> EvaluationDomain<Fr> {
    EvaluationDomain::new(k, root(k)).unwrap()
}

#[test]
fn polynomials_are_evaluated_exactly() {
    // 3 + 4 x + 5 x^2 at 10
    assert!(eval_polynomial(&[fr(3), fr(4), fr(5)], fr(10)).is_equal(&fr(543)));
    assert!(eval_polynomial::<Fr>(&[], fr(10)).is_equal(&Fr::zero()));
}

#[test]
fn domains_need_a_root_of_unity() {
    assert!(EvaluationDomain::new(3, root(3)).is_some());
    assert!(EvaluationDomain::new(3, root(2)).is_none());
    assert!(EvaluationDomain::new(3, root(4)).is_none());
    assert!(EvaluationDomain::new(3, fr(5)).is_none());
    assert!(EvaluationDomain::new(0, Fr::one()).is_some());
    assert!(EvaluationDomain::new(0, fr(2)).is_none());
    assert!(EvaluationDomain::new(1, Fr::zero()).is_none());
    assert!(EvaluationDomain::new(31, root(28)).is_none());
}

#[test]
fn transforms_evaluate_at_the_powers_of_the_root() {
    let coeffs: Vec<Fr> = (1..9).map(fr).collect();
    let values = fft(&coeffs, root(3));
    for (i, v) in values.iter().enumerate() {
        assert!(eval_polynomial(&coeffs, root(3).pow(i as u64)).is_equal(v));
    }
    assert!(values[0].is_equal(&fr(36)));
}

#[test]
fn interpolation_undoes_evaluation() {
    let d = domain(3);
    let coeffs: Vec<Fr> = (1..9).map(fr).collect();
    let values = fft(&coeffs, root(3));
    let back = d.lagrange_to_coeff(d.lagrange_from_vec(values));
    assert_eq!(back.values(), &coeffs[..]);
}

#[test]
fn a_single_point_is_a_domain() {
    let d = domain(0);
    assert_eq!(d.n, 1);
    let p = d.lagrange_to_coeff(d.lagrange_from_vec(vec![fr(7)]));
    assert_eq!(p.values(), &[fr(7)]);
}

#[test]
fn empty_polynomials_are_zero() {
    let d = domain(2);
    assert_eq!(d.empty_lagrange().values(), &[Fr::zero(); 4]);
    let assigned = d.empty_lagrange_assigned();
    assert_eq!(assigned.len(), 4);
    assert!(assigned.iter().all(|a| matches!(a, Assigned::Zero)));
}

#[test]
fn rotated_points_take_rotated_values() {
    let d = domain(3);
    let values: Vec<Fr> = (10..18).map(fr).collect();
    let lagrange = d.lagrange_from_vec(values.clone());
    let coeffs = d.lagrange_to_coeff(d.lagrange_from_vec(values));
    for by in [-8, -3, -1, 0, 1, 5, 8] {
        let rotated = lagrange.rotate(Rotation(by));
        for j in 0..8 {
            let point = d.rotate_omega(root(3).pow(j), Rotation(by));
            let value = eval_polynomial(coeffs.values(), point);
            assert!(value.is_equal(&rotated[j as usize]));
        }
    }
}

#[test]
fn rotations_multiply_by_powers_of_the_root() {
    let d = domain(3);
    let x = fr(5);
    assert!(d.rotate_omega(x, Rotation::cur()).is_equal(&x));
    assert!(d.rotate_omega(x, Rotation(2)).is_equal(&x.mul(&root(3).pow(2))));
    let back = d.rotate_omega(d.rotate_omega(x, Rotation(3)), Rotation(-3));
    assert!(back.is_equal(&x));
    assert!(d.rotate_omega(x, Rotation::prev()).is_equal(&x.mul(&root(3).pow(7))));
}
