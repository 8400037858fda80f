use fhe_ring::constants::{
    KeySwitchTechnique, MultipartyMode, PlaintextEncodingsType, PolynomialRingFormat,
    ProxyPreEncryptionMode, ScalingTechnique, SecurityLevel, MAX_MODULUS_SIZE,
};
use fhe_ring::pke::{compute_num_large_digits, compute_num_large_digits_pre, Scheme};

#[test]
fn numeric_decodings() {
    assert_eq!(ScalingTechnique::from(0), ScalingTechnique::FixedManual);
    assert_eq!(ScalingTechnique::from(4), ScalingTechnique::NoRescale);
    assert_eq!(ScalingTechnique::from(99), ScalingTechnique::Invalid);
    assert_eq!(ProxyPreEncryptionMode::from(1), ProxyPreEncryptionMode::IndCpa);
    assert_eq!(MultipartyMode::from(2), MultipartyMode::NoiseFlooding);
    assert_eq!(MultipartyMode::from(7), MultipartyMode::Invalid);
    assert_eq!(KeySwitchTechnique::from(2), KeySwitchTechnique::Hybrid);
    assert_eq!(PlaintextEncodingsType::from(3), PlaintextEncodingsType::String);
    assert_eq!(SecurityLevel::from(6), SecurityLevel::HeStd256Quantum);
    assert_eq!(SecurityLevel::from(0), SecurityLevel::HeStdNotSet);
    assert_eq!(Scheme::from(2), Scheme::Bfv);
    assert_eq!(Scheme::from(9), Scheme::Invalid);
}

#[test]
fn digit_budgets() {
    assert_eq!(compute_num_large_digits(5, 0), 5);
    assert_eq!(compute_num_large_digits(0, 4), 3);
    assert_eq!(compute_num_large_digits(0, 2), 2);
    assert_eq!(compute_num_large_digits(0, 0), 1);
    assert_eq!(compute_num_large_digits_pre(7, 9), 7);
    assert_eq!(compute_num_large_digits_pre(0, 5), 3);
    assert_eq!(compute_num_large_digits_pre(0, 3), 2);
    assert_eq!(compute_num_large_digits_pre(0, 1), 1);
}

#[test]
fn format_tags_and_bounds() {
    assert_ne!(PolynomialRingFormat::Coefficient, PolynomialRingFormat::Evaluation);
    assert_eq!(MAX_MODULUS_SIZE, 60);
}
