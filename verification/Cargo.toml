[package]
name = "argon2_rs"
version = "0.1.0"
edition = "2021"
publish = false

[dependencies]
argon2 = "*"
pyo3 = "*"
rand_core = { version = "0.6", features = ["getrandom"] }
