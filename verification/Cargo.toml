[package]
name = "rrule"
version = "0.1.0"
edition = "2021"
publish = false

[dependencies]
chrono = "=0.4.45"
chrono-tz = "=0.10.4"
wasm-bindgen = "=0.2.129"
console_error_panic_hook = "=0.1.7"
