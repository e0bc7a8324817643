[package]
name = "rust_breach_protocol"
version = "0.1.0"
edition = "2021"
publish = false

[dependencies]
rand = "=0.8.8"
macroquad = { version = "=0.4.16", features = ["audio"] }
