[package]
name = "scof"
version = "0.1.0"
edition = "2021"
publish = false

[dependencies]
muon-rs = "*"
serde = "1"
serde_derive = "1"
