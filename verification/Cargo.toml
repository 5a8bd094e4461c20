[package]
name = "goo"
version = "0.1.0"
edition = "2021"
publish = false

[dependencies]
base64 = "0.22"
crossbeam-channel = "0.5"
md-5 = "0.10"
png = "0.17"
serde_json = "1"
