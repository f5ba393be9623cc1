[package]
name = "shuffle"
version = "0.1.0"
edition = "2021"
publish = false

[dependencies]
ark-ec = { version = "=0.3.0", features = ["std"] }
ark-ff = { version = "=0.3.0", features = ["std"] }
ark-std = { version = "=0.3.0", features = ["std"] }
ark-serialize = { version = "=0.3.0", features = ["std"] }
ark-bn254 = "=0.3.0"
merlin = "=3.0.0"
rand = "0.8"
