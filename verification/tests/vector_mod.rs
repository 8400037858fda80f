use fhe_ring::vecmod::VecMod;

#[test]
fn construction_reduces_values() {
    let v = VecMod::with_value(3, 20, 17);
    assert_eq!(v.values, vec![3, 3, 3]);
    assert_eq!(v.modulus, 17);

    let w = VecMod::with_values_usize(&[1, 18, 35], 17);
    assert_eq!(w.values, vec![1, 1, 1]);
}

#[test]
fn elementwise_arithmetic() {
    let mut a = VecMod { values: vec![10, 11, 12], modulus: 17 };
    let b = VecMod { values: vec![9, 9, 9], modulus: 17 };
    a.add_assign(&b);
    assert_eq!(a.values, vec![2, 3, 4]);
    a.sub_assign(&b);
    assert_eq!(a.values, vec![10, 11, 12]);
    a.mul_assign(&b);
    assert_eq!(a.values, vec![90 % 17, 99 % 17, 108 % 17]);

    a.add_scalar_assign(1);
    a.sub_scalar_assign(1);
    a.mul_scalar_assign(2);
    assert_eq!(a.values, vec![90 % 17 * 2 % 17, 99 % 17 * 2 % 17, 108 % 17 * 2 % 17]);
}

#[test]
fn exponentiation_elementwise() {
    let v = VecMod { values: vec![2, 3, 4], modulus: 17 };
    let p = v.pow(4);
    assert_eq!(p.values, vec![16, 81 % 17, 256 % 17]);
    // Fermat: every nonzero residue to the 16th power is one.
    let f = v.pow(16);
    assert_eq!(f.values, vec![1, 1, 1]);
}

#[test]
fn inversion_and_division() {
    let v = VecMod { values: vec![2, 3, 4], modulus: 17 };
    let inv = v.inverse().unwrap();
    for (a, b) in v.values.iter().zip(inv.values.iter()) {
        assert_eq!(a * b % 17, 1);
    }
    let z = VecMod { values: vec![2, 0, 4], modulus: 17 };
    assert!(z.inverse().is_none());

    let mut d = VecMod { values: vec![4, 8, 12], modulus: 17 };
    d.div_scalar_assign(4).unwrap();
    assert_eq!(d.values, vec![1, 2, 3]);
}

#[test]
fn centered_parity_reduction() {
    // 9..16 read as negative residues mod 17.
    let v = VecMod { values: vec![0, 1, 2, 9, 16, 15], modulus: 17 };
    let m2 = v.rem_mod_2();
    // -8 -> 0, -1 -> 1, -2 -> 0.
    assert_eq!(m2.values, vec![0, 1, 0, 0, 1, 0]);
}

#[test]
fn centered_modulus_switch_both_directions() {
    // Increase 17 -> 97: positive values stay, negative values keep their
    // signed meaning.
    let mut up = VecMod { values: vec![1, 8, 9, 16], modulus: 17 };
    up.switch_modulus(97);
    assert_eq!(up.modulus, 97);
    assert_eq!(up.values, vec![1, 8, 97 - 8, 97 - 1]);

    // Decrease back.
    up.switch_modulus(17);
    assert_eq!(up.values, vec![1, 8, 9, 16]);
}

#[test]
fn random_vectors_are_reduced() {
    let v = VecMod::random(64, 97);
    assert_eq!(v.values.len(), 64);
    assert!(v.values.iter().all(|&x| x < 97));
}
