use fhe_ring::constants::{DistributionType, SecurityLevel};
use fhe_ring::params::{DcrtElementParamsBuilder, ElementParams, LatticeParams};

#[test]
fn element_params_fields_and_validation() {
    let p = ElementParams::with_ciphertext_root_of_unity(8, 17, 2).unwrap();
    assert_eq!(p.ring_dimension, 4);
    assert_eq!(p.cyclotomic_order, 8);
    assert_eq!(p.ciphertext_modulus, 17);
    assert_eq!(p.root_of_unity, 2);
    assert_eq!(p.big_ciphertext_modulus, 1);
    assert_eq!(p.big_root_of_unity, 0);

    // A non power-of-two order is refused.
    assert!(ElementParams::with_ciphertext_root_of_unity(6, 17, 2).is_err());
    // An even modulus is refused.
    assert!(ElementParams::with_ciphertext_root_of_unity(8, 16, 2).is_err());
}

#[test]
fn element_params_with_modulus_finds_canonical_root() {
    let p = ElementParams::with_modulus(8, 17).unwrap();
    assert_eq!(p.root_of_unity, 2);
    assert_eq!(p.ring_dimension, 4);
}

#[test]
fn element_params_with_modulus_bits() {
    let p = ElementParams::with_modulus_bits(16, 20).unwrap();
    assert!(p.ciphertext_modulus < (1 << 20));
    assert_eq!(p.ciphertext_modulus % 16, 1);
    assert_eq!(p.cyclotomic_order, 16);
    // Over the ceiling the builder refuses.
    assert!(ElementParams::with_modulus_bits(16, 61).is_err());
}

#[test]
fn chain_from_explicit_moduli_keeps_product_invariant() {
    let chain = DcrtElementParamsBuilder::new(8).moduli(vec![17, 97]).build().unwrap();
    assert_eq!(chain.len(), 2);
    assert_eq!(chain.modulus(), 17 * 97);
    let product: u64 = chain.params().iter().map(|p| p.ciphertext_modulus).product();
    assert_eq!(chain.modulus(), product);
}

#[test]
fn pops_divide_composite_modulus() {
    let mut chain = DcrtElementParamsBuilder::new(8).moduli(vec![17, 97]).build().unwrap();
    let first = chain.params()[0].ciphertext_modulus;
    chain.pop_front();
    assert_eq!(chain.len(), 1);
    assert_eq!(chain.modulus(), 17 * 97 / first);
    let product: u64 = chain.params().iter().map(|p| p.ciphertext_modulus).product();
    assert_eq!(chain.modulus(), product);

    chain.pop_back();
    assert_eq!(chain.len(), 0);
    assert_eq!(chain.modulus(), 1);

    // Popping an empty chain changes nothing.
    chain.pop_front();
    assert_eq!(chain.modulus(), 1);
}

#[test]
fn chain_by_depth_with_bit_budget() {
    let chain = DcrtElementParamsBuilder::new(16).depth(2).bits(20).build().unwrap();
    assert_eq!(chain.len(), 2);
    let product: u64 = chain.params().iter().map(|p| p.ciphertext_modulus).product();
    assert_eq!(chain.modulus(), product);
    for p in chain.params().iter() {
        assert_eq!(p.cyclotomic_order, 16);
        assert_eq!(p.ciphertext_modulus % 16, 1);
        assert!(p.ciphertext_modulus < (1 << 20));
    }
    // The limbs are distinct primes in decreasing order.
    assert!(chain.params()[0].ciphertext_modulus > chain.params()[1].ciphertext_modulus);
}

#[test]
fn builder_rejects_bad_combinations() {
    assert!(DcrtElementParamsBuilder::new(8).build().is_err());
    assert!(
        DcrtElementParamsBuilder::new(8).modulus(100).depth(2).build().is_err()
    );
    assert!(
        DcrtElementParamsBuilder::new(8)
            .moduli(vec![17, 97])
            .roots_of_unity(vec![2])
            .build()
            .is_err()
    );
    assert!(DcrtElementParamsBuilder::new(8).moduli(Vec::new()).build().is_err());
}

#[test]
fn chain_with_explicit_roots() {
    let root17 = 2;
    let root97 = fhe_ring::utils::root_of_unity(8, 97).unwrap();
    let chain = DcrtElementParamsBuilder::new(8)
        .moduli(vec![17, 97])
        .roots_of_unity(vec![root17, root97])
        .build()
        .unwrap();
    assert_eq!(chain.params()[0].root_of_unity, root17);
    assert_eq!(chain.params()[1].root_of_unity, root97);
    assert_eq!(chain.modulus(), 17 * 97);
}

#[test]
fn security_table_lookups() {
    assert_eq!(
        LatticeParams::find_max_q(
            DistributionType::Uniform,
            SecurityLevel::HeStd128Classic,
            1024,
        ),
        29,
    );
    assert_eq!(
        LatticeParams::find_max_q(
            DistributionType::Ternary,
            SecurityLevel::HeStd256Quantum,
            32768,
        ),
        443,
    );
    assert_eq!(
        LatticeParams::find_max_q(
            DistributionType::Uniform,
            SecurityLevel::HeStd128Classic,
            1000,
        ),
        0,
    );
    assert_eq!(
        LatticeParams::find_ring_dimension(
            DistributionType::Uniform,
            SecurityLevel::HeStd128Classic,
            25,
        ),
        1024,
    );
    assert_eq!(
        LatticeParams::find_ring_dimension(
            DistributionType::Uniform,
            SecurityLevel::HeStd128Classic,
            100,
        ),
        4096,
    );
    assert_eq!(
        LatticeParams::find_ring_dimension(
            DistributionType::Uniform,
            SecurityLevel::HeStd128Classic,
            10_000,
        ),
        65536,
    );
}
