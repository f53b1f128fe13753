[package]
name = "alife"
version = "0.2.5"
edition = "2021"
publish = false

[dependencies]
rand = "0.8"
wasm-bindgen = "0.2"
