[package]
name = "ravencheck"
version = "0.1.0"
edition = "2021"
publish = false

[dependencies]
easy-smt = "0.2"
petgraph = "0.6"
syn = { version = "2", features = ["full", "extra-traits"] }
quote = "1"
proc-macro2 = "1"
