[package]
name = "boluo-extra"
version = "0.1.0"
edition = "2021"
publish = false

[dependencies]
cookie = { version = "0.18", features = ["percent-encode"] }
http = "1"
