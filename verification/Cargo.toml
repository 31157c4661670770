[package]
name = "promptree"
version = "0.1.0"
edition = "2021"
publish = false

[dependencies]
ignore = "*"
tiktoken-rs = "*"
serde = { version = "*", features = ["derive"] }
serde-wasm-bindgen = "*"
wasm-bindgen = "*"
js-sys = "*"
web-sys = { version = "*", features = ["console"] }
console_error_panic_hook = "*"
