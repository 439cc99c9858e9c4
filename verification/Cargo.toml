[package]
name = "site"
version = "0.1.0"
edition = "2021"
publish = false

[dependencies]
ureq = "*"
serde_json = "*"
