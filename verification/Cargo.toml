[package]
name = "kvdb"
version = "0.1.0"
edition = "2021"
publish = false

[dependencies]
rand = "*"
serde = "*"
serde_json = "*"
