[package]
name = "ledger_replay"
version = "0.1.0"
edition = "2021"
publish = false

[dependencies]
atoi = "=3.1.1"
csv-async = "=1.3.1"
futures = "=0.3.34"
rand = "=0.8.8"
rustc-hash = "=1.1.0"
serde = { version = "=1.0.229", features = ["derive"] }
smol = "=2.0.2"
smol-potat = "=1.1.2"
