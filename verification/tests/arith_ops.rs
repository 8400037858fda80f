use fhe_ring::arith::{barrett_reduce, mod_add, mod_inv, mod_mul, mod_neg, mod_pow, mod_sub};

#[test]
fn modular_add_sub_wrap() {
    assert_eq!(mod_add(10, 9, 17), 2);
    assert_eq!(mod_add(0, 0, 17), 0);
    assert_eq!(mod_sub(3, 9, 17), 11);
    assert_eq!(mod_sub(9, 3, 17), 6);
    assert_eq!(mod_neg(5, 17), 12);
    assert_eq!(mod_neg(0, 17), 0);
}

#[test]
fn modular_mul_and_pow() {
    assert_eq!(mod_mul(13, 14, 17), 13 * 14 % 17);
    assert_eq!(mod_pow(3, 16, 17), 1);
    assert_eq!(mod_pow(2, 8, 17), 1);
    assert_eq!(mod_pow(2, 4, 17), 16);
    assert_eq!(mod_pow(5, 0, 97), 1);
}

#[test]
fn modular_inverse_exists_for_units() {
    for a in 1u64..17 {
        let inv = mod_inv(a, 17).expect("unit has an inverse under a prime");
        assert_eq!(a * inv % 17, 1);
    }
    assert!(mod_inv(0, 17).is_none());
    // 3 shares a factor with 9, so it has no inverse there.
    assert!(mod_inv(3, 9).is_none());
    assert_eq!(mod_inv(2, 9), Some(5));
}

#[test]
fn barrett_reduction_concrete() {
    let a: u64 = 123456789012345;
    let m: u64 = 1000000007;
    assert_eq!(barrett_reduce(a, m), a % m);
    assert_eq!(barrett_reduce(16, 17), 16);
    assert_eq!(barrett_reduce(u64::MAX, 3), u64::MAX % 3);
}
