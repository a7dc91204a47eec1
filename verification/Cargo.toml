[package]
name = "sequencer"
version = "0.1.0"
edition = "2021"
publish = false

[dependencies]
alloy = { version = "*", default-features = false, features = ["signer-local", "k256", "std"] }
