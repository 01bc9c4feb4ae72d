[package]
name = "printcore"
version = "0.1.0"
edition = "2021"
publish = false

[dependencies]
ureq = { version = "*", default-features = false }
