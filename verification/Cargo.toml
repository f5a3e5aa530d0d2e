[package]
name = "foxlite"
version = "0.1.0"
edition = "2021"
publish = false

[dependencies]
rand = "0.8"
rand_distr = "0.4"
serde = { version = "1", features = ["derive"] }
serde_json = "1"
indexmap = "2"
mimalloc = "0.1"
tch = "*"
