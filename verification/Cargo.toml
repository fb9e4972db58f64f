[package]
name = "gkr"
version = "0.1.0"
edition = "2021"
publish = false

[dependencies]
sha3 = "=0.10.9"
ark-ff = "=0.6.0"
ark-bn254 = "=0.6.0"
ark-circom = "=0.6.0"
clap = { version = "=4.6.7", features = ["cargo"] }
hex = "=0.4.3"
num-bigint = "=0.4.8"
serde = { version = "=1.0.229", features = ["derive"] }
serde_json = "=1.0.154"
