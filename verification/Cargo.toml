[package]
name = "apk_proofs"
version = "0.1.0"
edition = "2021"
publish = false

[dependencies]
ark-ff = { version = "0.5", default-features = false, features = ["std"] }
ark-std = { version = "0.5", default-features = false, features = ["std"] }
ark-bw6-767 = { version = "0.5", default-features = false, features = ["std"] }
ark-bw6-761 = { version = "0.5", default-features = false, features = ["std"] }
ark-ec = { version = "0.5", default-features = false, features = ["std"] }
ark-poly = { version = "0.5", default-features = false, features = ["std"] }

[dev-dependencies]
rand = "0.8"
