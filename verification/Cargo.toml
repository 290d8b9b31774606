[package]
name = "rustixml"
version = "0.2.0"
edition = "2021"
publish = false

[dependencies]
earlgrey = "*"
roxmltree = "*"
wasm-bindgen = "*"
console_error_panic_hook = "*"
