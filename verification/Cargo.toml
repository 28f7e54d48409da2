[package]
name = "oxide_arbiter"
version = "0.1.0"
edition = "2021"
publish = false

[dependencies]
chrono = { version = "0.4", default-features = false, features = ["clock", "std"] }
rust_decimal = { version = "1", default-features = false, features = ["std"] }
uuid = { version = "1", features = ["v4"] }
