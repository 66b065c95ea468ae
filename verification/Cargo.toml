[package]
name = "kombussy"
version = "0.1.0"
edition = "2021"
publish = false

[dependencies]
brotli = "*"
miniz_oxide = "*"
wasm-bindgen = "*"
