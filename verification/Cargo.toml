[package]
name = "halo2_gpu"
version = "0.1.0"
edition = "2021"
publish = false

[dependencies]
colored = "2"
ff = "0.13"
group = "0.13"
halo2-axiom = "*"
halo2curves-axiom = "*"
itertools = "*"
log = "0.4"
pairing = "0.23"
rand_core = { version = "0.6", features = ["getrandom"] }
rayon = "1"
tracing = "0.1"

[dev-dependencies]
rand = "0.8"
