[package]
name = "fhe_ring"
version = "0.1.0"
edition = "2021"
publish = false

[dependencies]
crypto-bigint = "0.6"
crypto-primes = "0.6"
prime_factorization = "1"
rand = "0.9"
rand_chacha = "0.9"
rand_distr = "0.5"
num = "0.4"
serde = { version = "1", features = ["derive"] }
