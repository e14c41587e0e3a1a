[package]
name = "proof_of_proof"
version = "0.1.0"
edition = "2021"
publish = false

[dependencies]
bincode = "1.3.3"
clap = { version = "4", features = ["derive"] }
itertools = "0.13"
p3-koala-bear = "0.8"
