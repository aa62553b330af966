[package]
name = "rust_dsp_utils"
version = "0.1.0"
edition = "2021"
publish = false

[dependencies]
rand_xoshiro = "*"
rustfft = "*"
