[package]
name = "idx_binary"
version = "0.1.0"
edition = "2021"
publish = false

[dependencies]
idx_file = "*"
various_data_file = "*"

[dev-dependencies]
tempfile = "3"
