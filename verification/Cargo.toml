[package]
name = "flowbot"
version = "0.1.0"
edition = "2021"
publish = false

[dependencies]
mcmf = "=2.0.0"
bit-set = "=0.11.1"
priq = "=0.1.6"
itertools = "=0.15.0"
serde = { version = "=1.0.229", features = ["derive"] }
serde_json = "=1.0.151"
prettytable-rs = "=0.10.0"
