[package]
name = "cw_sdk"
version = "0.1.0"
edition = "2021"
publish = false

[dependencies]
sha2 = "=0.10.9"
anyhow = "=1.0.104"
home = "=0.5.12"
lazy_static = "=1.5.1"
serde = { version = "=1.0.229", features = ["derive"] }
serde_json = "=1.0.151"
serde-json-wasm = "=1.0.1"
syn = "=2.0.119"
quote = "=1.0.47"
proc-macro2 = "=1.0.107"
tracing = "=0.1.44"
wasmer = { version = "=4.2.8", features = ["singlepass"] }
