[package]
name = "halo2_proofs"
version = "0.1.0"
edition = "2021"
publish = false

[dependencies]
ff = "0.13"
group = "0.13"
halo2curves = "0.7"
rand_core = { version = "0.6", features = ["getrandom"] }
