use fhe_ring::constants::PolynomialRingFormat;
use fhe_ring::params::ElementParams;
use fhe_ring::poly::Poly;

fn params_8_17() -> ElementParams {
    ElementParams::with_ciphertext_root_of_unity(8, 17, 2).unwrap()
}

fn poly_from(values: &[u64]) -> Poly {
    let mut p = Poly::zero(params_8_17());
    p.format = PolynomialRingFormat::Coefficient;
    p.set_values(values);
    p
}

#[test]
fn zero_and_max_elements() {
    let params = params_8_17();
    let z = Poly::zero(params);
    assert_eq!(z.values().as_slice(), &[0, 0, 0, 0]);
    // Fresh elements carry the default evaluation format.
    assert_eq!(z.format(), PolynomialRingFormat::Evaluation);
    let m = Poly::max(params);
    assert_eq!(m.values().as_slice(), &[16, 16, 16, 16]);
    assert_eq!(m.format(), PolynomialRingFormat::Evaluation);
    assert_eq!(z.len(), 4);
    assert!(!z.is_empty());
    assert_eq!(z.modulus(), 17);
    assert_eq!(z.cyclotomic_order(), 8);
}

#[test]
fn negation_and_vector_arithmetic() {
    let a = poly_from(&[1, 2, 3, 4]);
    let n = a.neg();
    assert_eq!(n.values().as_slice(), &[16, 15, 14, 13]);

    let mut s = poly_from(&[10, 11, 12, 13]);
    s.add_assign(&a);
    assert_eq!(s.values().as_slice(), &[11, 13, 15, 0]);
    s.sub_assign(&a);
    assert_eq!(s.values().as_slice(), &[10, 11, 12, 13]);
}

#[test]
fn scalar_arithmetic_respects_format() {
    // Coefficient format: a scalar touches only the constant slot.
    let mut a = poly_from(&[1, 2, 3, 4]);
    a.add_scalar_assign(5);
    assert_eq!(a.values().as_slice(), &[6, 2, 3, 4]);

    let mut b = poly_from(&[1, 2, 3, 4]);
    b.mul_scalar_assign(3);
    assert_eq!(b.values().as_slice(), &[3, 6, 9, 12]);
    b.div_scalar_assign(3).unwrap();
    assert_eq!(b.values().as_slice(), &[1, 2, 3, 4]);
    assert!(b.div_scalar_assign(0).is_err());
}

#[test]
fn elementwise_inverse_needs_units() {
    let a = poly_from(&[1, 2, 3, 4]);
    let inv = a.inverse().expect("all slots are nonzero under a prime");
    for (v, w) in a.values().iter().zip(inv.values().iter()) {
        assert_eq!(v * w % 17, 1);
    }
    let z = poly_from(&[1, 0, 3, 4]);
    assert!(z.inverse().is_none());
}

#[test]
fn infinity_norm_is_centered() {
    // 16 is -1 and 13 is -4 under the centered reading.
    let a = poly_from(&[16, 2, 13, 4]);
    assert_eq!(a.norm(), 4);
    let b = poly_from(&[0, 0, 0, 0]);
    assert_eq!(b.norm(), 0);
    let c = poly_from(&[8, 9, 0, 0]);
    // 8 is +8, 9 is -8: both magnitude 8.
    assert_eq!(c.norm(), 8);
}

#[test]
fn sparse_and_parity_operations() {
    let mut a = poly_from(&[5, 6, 7, 8]);
    a.make_sparse(2);
    assert_eq!(a.values().as_slice(), &[5, 0, 7, 0]);

    // mod 2 under the centered rule: 16 = -1 -> 1, 9 = -8 -> 0.
    let b = poly_from(&[16, 9, 2, 3]);
    let m2 = b.mod_2();
    assert_eq!(m2.values().as_slice(), &[1, 0, 0, 1]);
}

#[test]
fn modulus_switch_round_trip() {
    // Centered magnitudes stay below min(17, 97) / 2 = 8.
    let original = [1u64, 16, 5, 12];
    let mut a = poly_from(&original);
    let root97 = fhe_ring::utils::root_of_unity(8, 97).unwrap();
    a.switch_modulus(97, root97, 1, 0);
    assert_eq!(a.modulus(), 97);
    a.switch_modulus(17, 2, 1, 0);
    assert_eq!(a.values().as_slice(), &original);
}

#[test]
fn automorphism_composition_in_coefficient_format() {
    let a = poly_from(&[1, 2, 3, 4]);
    let b = a.automorphism_transform(5);
    let c = b.automorphism_transform(3);
    // 3 * 5 = 15 = 7 modulo the cyclotomic order 8.
    let d = a.automorphism_transform(7);
    assert_eq!(c.values().as_slice(), d.values().as_slice());

    let e = a.automorphism_transform(3).automorphism_transform(3);
    // 3 * 3 = 9 = 1 modulo 8: the composition is the identity.
    assert_eq!(e.values().as_slice(), a.values().as_slice());
}

#[test]
fn automorphism_composition_in_evaluation_format() {
    let mut a = poly_from(&[1, 2, 3, 4]);
    a.set_format(PolynomialRingFormat::Evaluation).unwrap();
    let b = a.automorphism_transform(5);
    let c = b.automorphism_transform(3);
    let d = a.automorphism_transform(7);
    assert_eq!(c.values().as_slice(), d.values().as_slice());
}

#[test]
fn automorphism_known_permutation() {
    // k = 7 sends coefficient j to slot (7j mod 4) with a sign from the
    // wrap count: x^1 -> x^7 = -x^3, x^2 -> x^14 = x^6 = -x^2, x^3 -> x^21 = x^5 = -x.
    let a = poly_from(&[1, 2, 3, 4]);
    let t = a.automorphism_transform(7);
    assert_eq!(t.values().as_slice(), &[1, 17 - 4, 17 - 3, 17 - 2]);
}

#[test]
fn transpose_is_automorphism_by_order_minus_one() {
    let a = poly_from(&[1, 2, 3, 4]);
    let t = a.transpose();
    let u = a.automorphism_transform(7);
    assert_eq!(t.values().as_slice(), u.values().as_slice());
}

#[test]
fn automorphism_precompute_applies_table() {
    let mut a = poly_from(&[9, 8, 7, 6]);
    a.set_format(PolynomialRingFormat::Evaluation).unwrap();
    let table = [2usize, 3, 0, 1];
    let t = a.automorphism_transform_precompute(3, &table);
    let v = a.values();
    assert_eq!(
        t.values().as_slice(),
        &[v[2], v[3], v[0], v[1]],
    );
}

#[test]
fn gadget_decompose_round_trip() {
    let a = poly_from(&[13, 7, 16, 1]);
    let digits = a.base_decompose(2, false).unwrap();
    // 17 needs 5 bits, so 3 windows of 2 bits.
    assert_eq!(digits.len(), 3);
    for j in 0..4 {
        let mut acc: u64 = 0;
        for (i, d) in digits.iter().enumerate() {
            acc += d.values()[j] << (2 * i);
        }
        assert_eq!(acc % 17, a.values()[j]);
    }
}

#[test]
fn powers_of_base_scales_by_gadget_vector() {
    let a = poly_from(&[1, 2, 3, 4]);
    let powers = a.powers_of_base(2);
    assert_eq!(powers.len(), 3);
    for (i, p) in powers.iter().enumerate() {
        let factor = mod_pow_u64(2, (2 * i) as u64, 17);
        for j in 0..4 {
            assert_eq!(p.values()[j], a.values()[j] * factor % 17);
        }
    }
}

#[test]
fn multiply_and_round_divides_back() {
    let a = poly_from(&[1, 2, 3, 4]);
    let r = a.multiply_and_round(6, 3).unwrap();
    for j in 0..4 {
        // times 6, divided by 3: net doubling mod 17.
        assert_eq!(r.values()[j], a.values()[j] * 2 % 17);
    }
}

fn mod_pow_u64(base: u64, exp: u64, m: u64) -> u64 {
    let mut r: u64 = 1;
    let mut b = base % m;
    let mut e = exp;
    while e > 0 {
        if e & 1 == 1 {
            r = r * b % m;
        }
        b = b * b % m;
        e >>= 1;
    }
    r
}
