[package]
name = "cutlery"
version = "0.1.0"
edition = "2021"
publish = false

[dependencies]
sentencepiece = "*"
pyo3 = "*"
