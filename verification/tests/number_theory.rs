use fhe_ring::utils::{
    check_prime, get_coprimes, get_totient, is_generator, next_prime, previous_prime,
    reverse_bits, root_of_unity,
};

#[test]
fn totient_concrete_values() {
    assert_eq!(get_totient(8), 4);
    assert_eq!(get_totient(12), 4);
    assert_eq!(get_totient(17), 16);
}

#[test]
fn coprimes_of_small_orders() {
    assert_eq!(get_coprimes(8), vec![1, 3, 5, 7]);
    assert_eq!(get_coprimes(12), vec![1, 5, 7, 11]);
    assert_eq!(get_coprimes(1), Vec::<usize>::new());
}

#[test]
fn primality_and_prime_search() {
    assert!(check_prime(17));
    assert!(check_prime(97));
    assert!(!check_prime(1));
    assert!(!check_prime(91));

    // Progression 17 + 8k: 25, 33, 41 -> first prime is 41.
    assert_eq!(next_prime(17, 8).unwrap(), 41);
    // Progression 97 - 8k: 89 is already prime.
    assert_eq!(previous_prime(97, 8).unwrap(), 89);
}

#[test]
fn root_of_unity_order_eight_mod_seventeen() {
    let r = root_of_unity(8, 17).unwrap();
    assert_eq!(r, 2);
    assert_eq!(pow_mod_u64(r, 8, 17), 1);
    assert_eq!(pow_mod_u64(r, 4, 17), 16);
    for e in 1..8 {
        if e != 0 {
            let p = pow_mod_u64(r, e, 17);
            if e < 8 {
                assert_ne!(p, 1, "no smaller power of the root may be one");
            }
        }
    }
}

#[test]
fn root_of_unity_rejects_bad_inputs() {
    // Order not a power of two.
    assert!(root_of_unity(6, 17).is_err());
    // Modulus not prime.
    assert!(root_of_unity(8, 15).is_err());
    // Order does not divide modulus - 1 (13 - 1 = 12 is not a multiple of 8).
    assert!(root_of_unity(8, 13).is_err());
}

#[test]
fn generator_test_mod_seventeen() {
    // 3 generates the multiplicative group mod 17; 2 has order 8 only.
    assert!(is_generator(3, 17));
    assert!(!is_generator(2, 17));
    assert!(!is_generator(1, 17));
}

#[test]
fn bit_reversal_small_cases() {
    assert_eq!(reverse_bits(0, 3), 0);
    assert_eq!(reverse_bits(1, 3), 4);
    assert_eq!(reverse_bits(3, 3), 6);
    assert_eq!(reverse_bits(6, 3), 3);
    assert_eq!(reverse_bits(5, 3), 5);
    assert_eq!(reverse_bits(1, 1), 1);
    // Full-word reversal of the unit bit.
    assert_eq!(reverse_bits(1, 64), 1usize << 63);
}

#[test]
fn bit_reversal_is_an_involution() {
    for bits in 0..12 {
        for n in 0..(1usize << bits) {
            assert_eq!(reverse_bits(reverse_bits(n, bits), bits), n);
        }
    }
}

#[test]
fn root_of_unity_is_deterministic_and_canonical() {
    // Two calls on equal arguments return the same, smallest, value.
    let a = root_of_unity(8, 17).unwrap();
    let b = root_of_unity(8, 17).unwrap();
    assert_eq!(a, b);
    assert_eq!(a, 2);
    let r = root_of_unity(8, 97).unwrap();
    // No smaller residue is a primitive eighth root mod 97.
    for x in 2..r {
        let full = pow_mod_u64(x, 8, 97);
        let half = pow_mod_u64(x, 4, 97);
        assert!(!(full == 1 && half == 96));
    }
    assert_eq!(pow_mod_u64(r, 8, 97), 1);
    assert_eq!(pow_mod_u64(r, 4, 97), 96);
}

#[test]
fn root_of_unity_beyond_the_scan_window() {
    // A modulus far above the canonical scan window still yields a
    // certified primitive root, through the generator method.
    let q = next_prime(1_000_001, 8).unwrap();
    assert!(q % 8 == 1);
    let r = root_of_unity(8, q).unwrap();
    assert!(1 < r && r < q);
    assert_eq!(pow_mod_u64(r, 8, q), 1);
    assert_eq!(pow_mod_u64(r, 4, q), q - 1);
}

fn pow_mod_u64(base: u64, exp: u64, m: u64) -> u64 {
    let mut r: u64 = 1;
    let mut b = base % m;
    let mut e = exp;
    while e > 0 {
        if e & 1 == 1 {
            r = r * b % m;
        }
        b = b * b % m;
        e >>= 1;
    }
    r
}
