[package]
name = "umbral_pre"
version = "0.1.0"
edition = "2021"
publish = false

[dependencies]
k256 = { version = "0.13", default-features = false, features = ["arithmetic", "std"] }
sha2 = { version = "0.10", default-features = false }
rand_core = { version = "0.6", default-features = false, features = ["getrandom"] }
generic-array = { version = "0.14" }
typenum = { version = "1" }
