[package]
name = "dynseq"
version = "0.1.0"
edition = "2021"

[dev-dependencies]
biotest = { version = "=0.2.0", features = ["sequence"] }
