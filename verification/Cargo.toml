[package]
name = "nparser"
version = "0.1.0"
edition = "2021"

[dependencies]
napi = { version = "2", default-features = false, features = ["napi4"] }
napi-derive = "2"
