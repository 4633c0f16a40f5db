[package]
name = "tpt-quant-core"
version = "0.1.0"
edition = "2021"
publish = false

[dependencies]
libfuzzer-sys = "0.4"

[dev-dependencies]
proptest = "1"
