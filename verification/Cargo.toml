[package]
name = "wasi2ic"
version = "0.1.0"
edition = "2021"
publish = false

[dependencies]
walrus = "=0.26.5"
wat = "=1.261.0"
wasmprinter = "=0.261.0"
ic-wasm = "=0.11.1"
clap = { version = "=4.6.7", features = ["derive"] }
anyhow = "=1.0.104"
env_logger = "=0.11.11"
log = "=0.4.34"
