[package]
name = "head_empty"
version = "0.1.0"
edition = "2021"
publish = false

[dependencies]
erased-serde = "0.4"
linkme = "0.3"
once_cell = "1"
paste = "1"
serde = "1"

[dev-dependencies]
serde_json = "1"
