use fhe_ring::constants::PolynomialRingFormat;
use fhe_ring::params::ElementParams;
use fhe_ring::poly::Poly;
use fhe_ring::transform::forward_transform_iterative;
use fhe_ring::vecmod::VecMod;

fn params_8_17() -> ElementParams {
    ElementParams::with_ciphertext_root_of_unity(8, 17, 2).unwrap()
}

fn poly_from(values: &[u64]) -> Poly {
    let mut p = Poly::zero(params_8_17());
    p.format = PolynomialRingFormat::Coefficient;
    p.set_values(values);
    p
}

#[test]
fn format_switch_round_trip() {
    let original = [1u64, 2, 3, 4];
    let mut a = poly_from(&original);
    assert_eq!(a.format(), PolynomialRingFormat::Coefficient);
    a.switch_format().unwrap();
    assert_eq!(a.format(), PolynomialRingFormat::Evaluation);
    a.switch_format().unwrap();
    assert_eq!(a.format(), PolynomialRingFormat::Coefficient);
    assert_eq!(a.values().as_slice(), &original);
}

#[test]
fn format_round_trip_many_inputs() {
    // Every input with entries below the modulus comes back unchanged.
    for seed in 0u64..17 {
        let original = [seed, (seed * 3 + 1) % 17, (seed * 7 + 2) % 17, (seed * 11 + 5) % 17];
        let mut a = poly_from(&original);
        a.set_format(PolynomialRingFormat::Evaluation).unwrap();
        a.set_format(PolynomialRingFormat::Coefficient).unwrap();
        assert_eq!(a.values().as_slice(), &original);
    }
}

#[test]
fn format_round_trip_larger_ring() {
    // order 16, modulus 97 (97 = 6 * 16 + 1), primitive 16th root.
    let root = fhe_ring::utils::root_of_unity(16, 97).unwrap();
    let params = ElementParams::with_ciphertext_root_of_unity(16, 97, root).unwrap();
    let mut a = Poly::zero(params);
    a.format = PolynomialRingFormat::Coefficient;
    let original: Vec<u64> = (0..8u64).map(|i| (i * i * 5 + 3) % 97).collect();
    a.set_values(&original);
    a.switch_format().unwrap();
    a.switch_format().unwrap();
    assert_eq!(a.values().as_slice(), original.as_slice());
}

#[test]
fn multiplication_matches_negacyclic_convolution() {
    let a_coeffs = [1u64, 2, 3, 4];
    let b_coeffs = [5u64, 6, 7, 8];
    let a = poly_from(&a_coeffs);
    let b = poly_from(&b_coeffs);
    let c = a.multiply(&b).unwrap();

    let expected = negacyclic(&a_coeffs, &b_coeffs, 17);
    assert_eq!(c.values().as_slice(), expected.as_slice());
}

#[test]
fn multiplication_by_one_is_identity() {
    let a = poly_from(&[9, 3, 0, 14]);
    let one = poly_from(&[1, 0, 0, 0]);
    let c = a.multiply(&one).unwrap();
    assert_eq!(c.values().as_slice(), a.values().as_slice());
}

#[test]
fn multiplication_by_x_rotates_with_sign() {
    // x * (a0 + a1 x + a2 x^2 + a3 x^3) = -a3 + a0 x + a1 x^2 + a2 x^3.
    let a = poly_from(&[1, 2, 3, 4]);
    let x = poly_from(&[0, 1, 0, 0]);
    let c = a.multiply(&x).unwrap();
    assert_eq!(c.values().as_slice(), &[17 - 4, 1, 2, 3]);
}

#[test]
fn table_driven_transform_preserves_shape() {
    // Table of powers of the order-8 root 2 modulo 17.
    let mut powers: Vec<u64> = Vec::new();
    let mut cur: u64 = 1;
    for _ in 0..8 {
        powers.push(cur);
        cur = cur * 2 % 17;
    }
    let table = VecMod { values: powers, modulus: 17 };
    let input = VecMod { values: vec![1, 2, 3, 4, 5, 6, 7, 8], modulus: 17 };
    let out = forward_transform_iterative(&input, &table);
    assert_eq!(out.values.len(), 8);
    assert!(out.values.iter().all(|&v| v < 17));
    // The zeroth output of the transform is the plain sum of the inputs.
    let sum: u64 = input.values.iter().sum::<u64>() % 17;
    assert_eq!(out.values[0], sum);
}

fn negacyclic(a: &[u64], b: &[u64], q: u64) -> Vec<u64> {
    let n = a.len();
    let mut c = vec![0i64; n];
    for i in 0..n {
        for j in 0..n {
            let prod = (a[i] * b[j] % q) as i64;
            if i + j < n {
                c[i + j] = (c[i + j] + prod).rem_euclid(q as i64);
            } else {
                c[i + j - n] = (c[i + j - n] - prod).rem_euclid(q as i64);
            }
        }
    }
    c.into_iter().map(|v| v as u64).collect()
}
