[package]
name = "bresenham_lighting_engine"
version = "0.1.0"
edition = "2021"
publish = false

[dependencies]
num-traits = "0.2"
once_cell = "1"
wasm-bindgen = "0.2"
console_error_panic_hook = "0.1"
