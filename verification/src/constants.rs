//! Constants used in the library.

use vstd::prelude::*;

verus! {

/// The maximum number of bits in a word.
pub const MAX_BITS_IN_WORD: usize = 61;

/// The maximum log step.
pub const MAX_LOG_STEP: usize = 60;

/// The maximum levels for discrete gaussian sampling.
pub const MAX_DISCRETE_GAUSSIAN_LEVELS: usize = 4;

/// Most common value for levels/towers to drop.
pub const BASE_NUM_LEVELS_TO_DROP: usize = 1;

/// Noise flooding distribution parameter for distributed decryption in
/// threshold schemes.
pub const MP_SD: usize = 1048576;

/// Noise flooding distribution parameter for fixed 20-bit noise multi-hop
/// proxy re-encryption.
pub const PRE_SD: usize = 1048576;

/// Number of additional moduli in noise-flooding multiparty mode.
pub const NUM_MODULI_MULTIPARTY: usize = 2;

/// Modulus size for additional moduli in noise-flooding multiparty mode.
pub const MULTIPARTY_MOD_SIZE: usize = 60;

/// The maximum number of bits in a generated modulus: the prime searches
/// stay one bit under the 61-bit word bound, while explicitly supplied
/// moduli may use the full bound.
pub const MAX_MODULUS_SIZE: usize = 60;

/// All features supported by public key encryption schemes.
#[derive(Debug, Clone, Copy, PartialEq, Eq, Structural, Hash)]
pub enum PkeSchemeFeature {
    /// Public key encryption.
    Pke,
    /// Key switching.
    KeySwitch,
    /// Proxy re-encryption.
    Pre,
    /// Leveled semi-homomorphic encryption.
    LeveledShe,
    /// Advanced semi-homomorphic encryption.
    AdvancedShe,
    /// Multi-party computation.
    MultiParty,
    /// Fully homomorphic encryption.
    Fhe,
    /// Scheme switching.
    SchemeSwitch,
}

/// The scaling techniques.
#[derive(Debug, Clone, Copy, PartialEq, Eq, Structural, Hash)]
pub enum ScalingTechnique {
    /// Fixed manual scaling.
    FixedManual,
    /// Fixed auto scaling.
    FixedAuto,
    /// Flexible autoscaling.
    FlexibleAuto,
    /// Flexible autoscaling extended.
    FlexibleAutoExt,
    /// No rescale.
    NoRescale,
    /// Invalid.
    Invalid,
}

impl From<usize> for ScalingTechnique {
    /// Decode from the numeric representation; unknown values are invalid.
    fn from(value: usize) -> (r: Self) {
        match value {
            0 => ScalingTechnique::FixedManual,
            1 => ScalingTechnique::FixedAuto,
            2 => ScalingTechnique::FlexibleAuto,
            3 => ScalingTechnique::FlexibleAutoExt,
            4 => ScalingTechnique::NoRescale,
            _ => ScalingTechnique::Invalid,
        }
    }
}

impl vstd::std_specs::convert::FromSpecImpl<usize> for ScalingTechnique {
    open spec fn obeys_from_spec() -> bool {
        true
    }

    open spec fn from_spec(value: usize) -> Self {
        match value {
            0 => ScalingTechnique::FixedManual,
            1 => ScalingTechnique::FixedAuto,
            2 => ScalingTechnique::FlexibleAuto,
            3 => ScalingTechnique::FlexibleAutoExt,
            4 => ScalingTechnique::NoRescale,
            _ => ScalingTechnique::Invalid,
        }
    }
}

/// Proxy pre-encryption mode.
#[derive(Debug, Clone, Copy, PartialEq, Eq, Structural, Hash)]
pub enum ProxyPreEncryptionMode {
    /// Not set.
    NotSet,
    /// Ciphertext indistinguishability.
    IndCpa,
    /// Resistance against honest re-encryption attacks with fixed noise.
    FixedNoiseHra,
    /// Resistance against honest re-encryption attacks with noise flooding.
    NoiseFloodingHra,
}

impl From<usize> for ProxyPreEncryptionMode {
    /// Decode from the numeric representation; unknown values are not set.
    fn from(value: usize) -> (r: Self) {
        match value {
            1 => ProxyPreEncryptionMode::IndCpa,
            2 => ProxyPreEncryptionMode::FixedNoiseHra,
            3 => ProxyPreEncryptionMode::NoiseFloodingHra,
            _ => ProxyPreEncryptionMode::NotSet,
        }
    }
}

impl vstd::std_specs::convert::FromSpecImpl<usize> for ProxyPreEncryptionMode {
    open spec fn obeys_from_spec() -> bool {
        true
    }

    open spec fn from_spec(value: usize) -> Self {
        match value {
            1 => ProxyPreEncryptionMode::IndCpa,
            2 => ProxyPreEncryptionMode::FixedNoiseHra,
            3 => ProxyPreEncryptionMode::NoiseFloodingHra,
            _ => ProxyPreEncryptionMode::NotSet,
        }
    }
}

/// Multi-party mode.
#[derive(Debug, Clone, Copy, PartialEq, Eq, Structural, Hash)]
pub enum MultipartyMode {
    /// Not valid.
    Invalid,
    /// Fixed noise mode.
    FixedNoise,
    /// Noise flooding mode.
    NoiseFlooding,
}

impl From<usize> for MultipartyMode {
    /// Decode from the numeric representation; unknown values are invalid.
    fn from(value: usize) -> (r: Self) {
        match value {
            1 => MultipartyMode::FixedNoise,
            2 => MultipartyMode::NoiseFlooding,
            _ => MultipartyMode::Invalid,
        }
    }
}

impl vstd::std_specs::convert::FromSpecImpl<usize> for MultipartyMode {
    open spec fn obeys_from_spec() -> bool {
        true
    }

    open spec fn from_spec(value: usize) -> Self {
        match value {
            1 => MultipartyMode::FixedNoise,
            2 => MultipartyMode::NoiseFlooding,
            _ => MultipartyMode::Invalid,
        }
    }
}

/// Execution mode.
#[derive(Debug, Clone, Copy, PartialEq, Eq, Structural, Hash)]
pub enum ExecutionMode {
    /// Evaluation.
    Evaluation,
    /// Noise estimation.
    NoiseEstimation,
}

/// Decryption noise mode.
#[derive(Debug, Clone, Copy, PartialEq, Eq, Structural, Hash)]
pub enum DecryptionNoiseMode {
    /// Fixed noise.
    FixedNoise,
    /// Noise flooding.
    NoiseFlooding,
}

/// Key switch technique.
#[derive(Debug, Clone, Copy, PartialEq, Eq, Structural, Hash)]
pub enum KeySwitchTechnique {
    /// Invalid.
    Invalid,
    /// Brakerski-Vaikuntanathan.
    Bv,
    /// Hybrid.
    Hybrid,
}

impl From<usize> for KeySwitchTechnique {
    /// Decode from the numeric representation; unknown values are invalid.
    fn from(value: usize) -> (r: Self) {
        match value {
            1 => KeySwitchTechnique::Bv,
            2 => KeySwitchTechnique::Hybrid,
            _ => KeySwitchTechnique::Invalid,
        }
    }
}

impl vstd::std_specs::convert::FromSpecImpl<usize> for KeySwitchTechnique {
    open spec fn obeys_from_spec() -> bool {
        true
    }

    open spec fn from_spec(value: usize) -> Self {
        match value {
            1 => KeySwitchTechnique::Bv,
            2 => KeySwitchTechnique::Hybrid,
            _ => KeySwitchTechnique::Invalid,
        }
    }
}

/// Encryption technique.
#[derive(Debug, Clone, Copy, PartialEq, Eq, Structural, Hash)]
pub enum EncryptionTechnique {
    /// Standard.
    Standard,
    /// Extended.
    Extended,
}

/// Multiplication technique.
#[derive(Debug, Clone, Copy, PartialEq, Eq, Structural, Hash)]
pub enum MultiplicationTechnique {
    /// Behz.
    Behz,
    /// Hps.
    Hps,
    /// Hps over Q.
    HpsOverQ,
    /// Hps over Q leveled.
    HpsOverQLeveled,
}

/// Plaintext encodings.
#[derive(Debug, Clone, Copy, PartialEq, Eq, Structural, Hash)]
pub enum PlaintextEncodingsType {
    /// Invalid.
    Invalid,
    /// Coefficient packed.
    CoefficientPacked,
    /// Packed.
    Packed,
    /// String.
    String,
    /// Ckks packed.
    CkksPacked,
}

impl From<usize> for PlaintextEncodingsType {
    /// Decode from the numeric representation; unknown values are invalid.
    fn from(value: usize) -> (r: Self) {
        match value {
            1 => PlaintextEncodingsType::CoefficientPacked,
            2 => PlaintextEncodingsType::Packed,
            3 => PlaintextEncodingsType::String,
            4 => PlaintextEncodingsType::CkksPacked,
            _ => PlaintextEncodingsType::Invalid,
        }
    }
}

impl vstd::std_specs::convert::FromSpecImpl<usize> for PlaintextEncodingsType {
    open spec fn obeys_from_spec() -> bool {
        true
    }

    open spec fn from_spec(value: usize) -> Self {
        match value {
            1 => PlaintextEncodingsType::CoefficientPacked,
            2 => PlaintextEncodingsType::Packed,
            3 => PlaintextEncodingsType::String,
            4 => PlaintextEncodingsType::CkksPacked,
            _ => PlaintextEncodingsType::Invalid,
        }
    }
}

/// Ciphertext compression levels.
#[derive(Debug, Clone, Copy, PartialEq, Eq, Structural, Hash)]
pub enum CompressionLevel {
    /// More efficient, with a stronger security assumption.
    Compact,
    /// Less efficient, with a weaker security assumption.
    Slack,
}

/// Key generation modes for ring learning with errors.
#[derive(Debug, Clone, Copy, PartialEq, Eq, Structural, Hash)]
pub enum SecretKeyDistribution {
    /// Gaussian.
    Gaussian,
    /// Uniform ternary.
    UniformTernary,
    /// Sparse ternary.
    SparseTernary,
}

/// The polynomial ring format representation.
#[derive(Debug, Clone, Copy, PartialEq, Eq, Structural, Hash)]
pub enum PolynomialRingFormat {
    /// Evaluation.
    Evaluation,
    /// Coefficient.
    Coefficient,
}

/// The base type for the discrete Gaussian sampler.
#[derive(Debug, Clone, Copy, PartialEq, Eq, Structural, Hash)]
pub enum BaseSamplerType {
    /// Knuth-Yao.
    KnuthYao,
    /// Peikert.
    Peikert,
}

/// The secret distribution assumed by a security table.
#[derive(Debug, Clone, Copy, PartialEq, Eq, Structural, Hash)]
pub enum DistributionType {
    /// Uniform.
    Uniform,
    /// Error.
    Error,
    /// Ternary.
    Ternary,
}

/// The security levels of the homomorphic encryption standard.
#[derive(Debug, Clone, Copy, PartialEq, Eq, Structural, Hash)]
pub enum SecurityLevel {
    /// Not set.
    HeStdNotSet,
    /// 128-bit classical security.
    HeStd128Classic,
    /// 192-bit classical security.
    HeStd192Classic,
    /// 256-bit classical security.
    HeStd256Classic,
    /// 128-bit quantum security.
    HeStd128Quantum,
    /// 192-bit quantum security.
    HeStd192Quantum,
    /// 256-bit quantum security.
    HeStd256Quantum,
}

impl From<usize> for SecurityLevel {
    /// Decode from the numeric representation; unknown values are not set.
    fn from(value: usize) -> (r: Self) {
        match value {
            1 => SecurityLevel::HeStd128Classic,
            2 => SecurityLevel::HeStd192Classic,
            3 => SecurityLevel::HeStd256Classic,
            4 => SecurityLevel::HeStd128Quantum,
            5 => SecurityLevel::HeStd192Quantum,
            6 => SecurityLevel::HeStd256Quantum,
            _ => SecurityLevel::HeStdNotSet,
        }
    }
}

impl vstd::std_specs::convert::FromSpecImpl<usize> for SecurityLevel {
    open spec fn obeys_from_spec() -> bool {
        true
    }

    open spec fn from_spec(value: usize) -> Self {
        match value {
            1 => SecurityLevel::HeStd128Classic,
            2 => SecurityLevel::HeStd192Classic,
            3 => SecurityLevel::HeStd256Classic,
            4 => SecurityLevel::HeStd128Quantum,
            5 => SecurityLevel::HeStd192Quantum,
            6 => SecurityLevel::HeStd256Quantum,
            _ => SecurityLevel::HeStdNotSet,
        }
    }
}

} // verus!
