[package]
name = "csv_pipeline"
version = "0.1.0"
edition = "2021"
publish = false

[dependencies]
bigdecimal = "*"
csv = "*"
linked-hash-map = "*"
