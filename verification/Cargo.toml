[package]
name = "starplayer"
version = "0.1.0"
edition = "2021"
publish = false

[dependencies]
fnv = "1.0"
rand = { version = "0.8", features = ["small_rng"] }
