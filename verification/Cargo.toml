[package]
name = "objstore"
version = "0.1.0"
edition = "2021"
publish = false

[dependencies]
hex = "*"
sha2 = "*"
tokio = { version = "*", default-features = false, features = ["sync"] }
