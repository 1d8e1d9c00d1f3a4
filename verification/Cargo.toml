[package]
name = "rezip"
version = "0.1.0"
edition = "2021"
publish = false

[dependencies]
anyhow = "1"
clap = { version = "4", features = ["derive"] }
tempfile = "3"
unicase = "2"
zip = { version = "2", default-features = false, features = ["deflate"] }
