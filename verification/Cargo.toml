[package]
name = "nuparu"
version = "0.1.0"
edition = "2021"
publish = false

[dependencies]
nu-parser = "0.112.1"
nu-protocol = { version = "0.112.1", default-features = false }
serde = { version = "1", features = ["derive"] }
anyhow = "1"
dprint-core = { version = "0.67", features = ["process"] }
tokio = { version = "1", features = ["macros", "rt"] }
wasm-bindgen = "0.2"
