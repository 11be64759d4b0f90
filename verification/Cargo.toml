[package]
name = "brakingbase"
version = "0.1.0"
edition = "2021"
publish = false

[dependencies]
halo2curves = "*"
blake2 = "0.10"
aes = "0.8"
ctr = "0.9"
rand_chacha = "0.3"
plonky2_util = "*"
rand = "0.8"
