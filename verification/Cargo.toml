[package]
name = "atelier_native_scanner"
version = "0.1.0"
edition = "2021"
publish = false

[dependencies]
rustler = "*"
