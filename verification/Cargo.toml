[package]
name = "repub_bind"
version = "0.1.0"
edition = "2021"
publish = false

[dependencies]
image = { version = "*", default-features = false, features = ["jpeg", "png", "gif", "webp"] }
wasm-bindgen = "=0.2.129"
