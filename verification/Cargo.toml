[package]
name = "rw_core"
version = "0.1.0"
edition = "2021"
publish = false

[dependencies]
byteorder = "1"
fixedbitset = "0.4"
itertools = "0.10"
rust_decimal = { version = "1", default-features = false, features = ["std"] }
tokio = { version = "1", features = ["sync"] }
tracing = "0.1"
