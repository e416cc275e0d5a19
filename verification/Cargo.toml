[package]
name = "paintify"
version = "0.1.0"
edition = "2021"
publish = false

[dependencies]
image = { version = "0.25", default-features = false, features = ["png", "jpeg", "webp"] }
wasm-bindgen = "0.2"
console_error_panic_hook = "0.1"
log = "0.4"
env_logger = "0.11"
winit = "0.30"
pixels = "*"
nokhwa = "*"
