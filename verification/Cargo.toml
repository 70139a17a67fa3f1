[package]
name = "strict_schema"
version = "0.1.0"
edition = "2021"
publish = false

[dev-dependencies]
strict_encoding = "=0.9.0"
