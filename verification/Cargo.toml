[package]
name = "turbo_hearts"
version = "0.1.0"
edition = "2021"
publish = false

[dependencies]
rand = "=0.7.3"
rand_chacha = "=0.2.2"
sha2 = "=0.9.9"
uuid = { version = "=0.8.2", features = ["v4"] }
