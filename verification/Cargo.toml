[package]
name = "backend"
version = "0.1.0"
edition = "2021"
publish = false

[dependencies]
rand = "0.8"
crossterm = "0.27"
cursive = { version = "0.20", default-features = false, features = ["crossterm-backend"] }
lazy_static = "1"
serde = { version = "1", features = ["derive"] }
serde_json = "1"
wasm-bindgen = "0.2"
