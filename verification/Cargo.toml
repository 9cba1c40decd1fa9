[package]
name = "fhe_ir"
version = "0.1.0"
edition = "2021"
publish = false

[dependencies]
bimap = "0.6"

[dev-dependencies]
oorandom = "11"
