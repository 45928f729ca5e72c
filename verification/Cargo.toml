[package]
name = "kzgblob"
version = "0.1.0"
edition = "2021"
publish = false

[dependencies]
halo2curves = { version = "*", features = ["derive_serde"] }
ff = "*"
group = "*"
rand = "=0.8.5"
rand_chacha = "=0.3.1"
serde = { version = "*", features = ["derive"] }
serde_json = "*"
config-file = "*"
