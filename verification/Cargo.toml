[package]
name = "dotin_import"
version = "0.1.0"
edition = "2021"
publish = false

[dependencies]
anyhow = "*"
file_type_enum = "*"
fs-err = "*"
