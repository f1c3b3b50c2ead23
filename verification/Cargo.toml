[package]
name = "jancox"
version = "3.0.0"
edition = "2021"
publish = false

[dependencies]
brotli = "*"
zip = { version = "*", default-features = false, features = ["deflate"] }
