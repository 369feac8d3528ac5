[package]
name = "pathquery"
version = "0.1.0"
edition = "2021"
publish = false

[dependencies]
serde_yaml = "*"
serde_json = "*"
anyhow = "*"
