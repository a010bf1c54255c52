[package]
name = "hashlife"
version = "0.1.0"
edition = "2021"
publish = false

[dependencies]
bimap = "=0.6.3"
wasm-bindgen = "=0.2.129"
js-sys = "=0.3.106"
