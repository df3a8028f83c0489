[package]
name = "zagreb-lib"
version = "0.1.0"
edition = "2021"
publish = false

[dependencies]
clap = "4"
console_error_panic_hook = "0.1"
serde = { version = "1", features = ["derive"] }
serde_json = "1"
solana-sdk = { version = "*", default-features = false }
wasm-bindgen = "0.2"
