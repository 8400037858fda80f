use fhe_ring::constants::PolynomialRingFormat;
use fhe_ring::params::ElementParams;
use fhe_ring::poly::Poly;
use fhe_ring::sampler::{
    find_in_vector, BaseSampler, BitGenerator, DiscreteGaussianGeneric, DiscreteUniform,
};

const SIGMA: f64 = 3.2;

fn support_radius() -> usize {
    let acc: f64 = 1e-17;
    (SIGMA * (-2.0 * acc.ln()).sqrt()).ceil() as usize
}

fn normalized_weights(fin: usize) -> Vec<f64> {
    let mut weights = Vec::new();
    let mut total = 0.0f64;
    for i in -(fin as i64)..=(fin as i64) {
        let w = (-(i as f64) * (i as f64) / (2.0 * SIGMA * SIGMA)).exp();
        total += w;
        weights.push(w);
    }
    weights.into_iter().map(|w| w / total).collect()
}

fn knuth_yao_matrix(fin: usize) -> Vec<u64> {
    normalized_weights(fin)
        .into_iter()
        .map(|p| (p * 18446744073709551616.0) as u64)
        .collect()
}

fn peikert_cdf(fin: usize) -> Vec<u64> {
    let mut cum = 0.0f64;
    normalized_weights(fin)
        .into_iter()
        .map(|p| {
            cum += p;
            let scaled = cum * 18446744073709551616.0;
            if scaled >= 18446744073709551615.0 {
                u64::MAX
            } else {
                scaled as u64
            }
        })
        .collect()
}

fn check_statistics(samples: &[i64]) {
    let n = samples.len() as f64;
    let mean: f64 = samples.iter().map(|&v| v as f64).sum::<f64>() / n;
    let var: f64 = samples.iter().map(|&v| (v as f64 - mean) * (v as f64 - mean)).sum::<f64>()
        / n;
    let std = var.sqrt();
    assert!(mean.abs() < 0.06, "empirical mean {mean} too far from 0");
    assert!((std - SIGMA).abs() < 0.15, "empirical std {std} too far from {SIGMA}");
}

#[test]
fn knuth_yao_statistics() {
    let fin = support_radius();
    let matrix = knuth_yao_matrix(fin);
    let mut sampler =
        BaseSampler::new_knuth_yao(&matrix, fin, 0, BitGenerator::new()).unwrap();
    let mut samples = Vec::with_capacity(100_000);
    for _ in 0..100_000 {
        samples.push(sampler.sample_i64().unwrap());
    }
    check_statistics(&samples);
}

#[test]
fn peikert_statistics() {
    let fin = support_radius();
    let cdf = peikert_cdf(fin);
    let mut sampler = BaseSampler::new_peikert(cdf, fin, 0, BitGenerator::new());
    let mut samples = Vec::with_capacity(100_000);
    for _ in 0..100_000 {
        samples.push(sampler.sample_i64().unwrap());
    }
    check_statistics(&samples);
}

#[test]
fn samples_stay_on_support() {
    let fin = support_radius();
    let cdf = peikert_cdf(fin);
    let mut sampler = BaseSampler::new_peikert(cdf, fin, 0, BitGenerator::new());
    for _ in 0..1000 {
        let v = sampler.sample_i64().unwrap();
        assert!(v.unsigned_abs() as usize <= fin + 1);
    }
}

#[test]
fn bit_generator_serves_bits() {
    let mut bg = BitGenerator::new();
    for _ in 0..200 {
        assert!(bg.generate() <= 1);
    }
    let v = bg.gen_vec_mod(16, 17);
    assert_eq!(v.values.len(), 16);
    assert!(v.values.iter().all(|&x| x <= 1));
}

#[test]
fn cumulative_bucket_search() {
    let table = vec![10u64, 20, 30];
    assert_eq!(find_in_vector(&table, 5), 0);
    assert_eq!(find_in_vector(&table, 10), 1);
    assert_eq!(find_in_vector(&table, 25), 2);
    assert_eq!(find_in_vector(&table, 99), 3);
}

#[test]
fn discrete_uniform_draws_below_modulus() {
    let mut du = DiscreteUniform::new(97);
    for _ in 0..100 {
        assert!(du.gen_uint() < 97);
    }
    let v = du.gen_vec_mod(32);
    assert_eq!(v.values.len(), 32);
    assert!(v.values.iter().all(|&x| x < 97));
    let w = du.gen_vec_mod_with_modulus(8, 17);
    assert_eq!(w.modulus, 17);
    assert!(w.values.iter().all(|&x| x < 17));
}

#[test]
fn noise_polynomial_from_generic_sampler() {
    let fin = support_radius();
    let cdf = peikert_cdf(fin);
    let base_a = BaseSampler::new_peikert(cdf.clone(), fin, 0, BitGenerator::new());
    let base_b = BaseSampler::new_peikert(cdf, fin, 0, BitGenerator::new());
    let mut generic =
        DiscreteGaussianGeneric::new(vec![base_a, base_b], vec![(2, 1)], 1).unwrap();
    let params = ElementParams::with_ciphertext_root_of_unity(8, 17, 2).unwrap();
    let p = Poly::discrete_gaussian(params, PolynomialRingFormat::Coefficient, &mut generic)
        .unwrap();
    assert_eq!(p.len(), 4);
    assert!(p.values().iter().all(|&v| v < 17));
}

#[test]
fn generic_sampler_produces_finite_samples() {
    let fin = support_radius();
    let cdf = peikert_cdf(fin);
    let base_a = BaseSampler::new_peikert(cdf.clone(), fin, 0, BitGenerator::new());
    let base_b = BaseSampler::new_peikert(cdf, fin, 0, BitGenerator::new());
    let mut generic =
        DiscreteGaussianGeneric::new(vec![base_a, base_b], vec![(2, 1)], 1).unwrap();
    for _ in 0..100 {
        generic.random_i64().unwrap();
        generic.wide_i64().unwrap();
    }
    // The fractional center is given in units of 2^53.
    let half: u64 = 1 << 52;
    for _ in 0..100 {
        generic.flip_and_round(half).unwrap();
    }
    generic.sample_c(5).unwrap();
    generic.sample_c(-5).unwrap();
}
