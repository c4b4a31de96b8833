[package]
name = "betty_ide"
version = "0.1.0"
edition = "2021"
publish = false

[dependencies]
chrono = { version = "0.4", default-features = false, features = ["clock"] }
serde = "1"
serde_derive = "1"
serde_json = "1"
