[package]
name = "website"
version = "0.1.0"
edition = "2021"
publish = false

[dependencies]
fancy-regex = "*"
glob = "*"
serde = { version = "1", features = ["derive"] }
serde_json = "1"
askama = "*"
anyhow = "1"
