[package]
name = "mesh_browser"
version = "0.1.0"
edition = "2021"
publish = false

[dependencies]
serde_json = "=1.0.154"
wasm-bindgen = "0.2"
