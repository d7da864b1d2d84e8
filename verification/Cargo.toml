[package]
name = "signed_int"
version = "0.1.0"
edition = "2021"
publish = false

[dependencies]
ruint = "1"
serde = "1"
