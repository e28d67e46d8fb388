[package]
name = "rust_i18n"
version = "0.1.0"
edition = "2021"
publish = false

[dependencies]
serde_json = "1"
serde_yaml = "0.9"
glob = "0.3"
once_cell = "1"
fs-err = "*"
