[package]
name = "quark_grand_product"
version = "0.1.0"
edition = "2021"
publish = false

[dependencies]
ark-bn254 = "0.4"
ark-ff = "0.4"
ark-serialize = { version = "0.4", features = ["derive"] }
ark-std = "0.4"
sha3 = "0.10"
thiserror = "1"
tracing = "0.1"

[dev-dependencies]
rand_chacha = "0.3"
rand_core = "0.6"
