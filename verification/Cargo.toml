[package]
name = "fri"
version = "0.1.0"
edition = "2021"
publish = false

[dependencies]
ark-bls12-381 = { version = "0.4", default-features = false, features = ["scalar_field"] }
ark-ff = { version = "0.4", features = ["std"] }
ark-poly = { version = "0.4", features = ["std"] }
ark-serialize = { version = "0.4", features = ["std", "derive"] }
ark-std = { version = "0.4", features = ["std"] }
digest = "0.10"
sha2 = "0.10"
thiserror = "1"
