[package]
name = "participation"
version = "0.1.0"
edition = "2021"
publish = false

[dependencies]
chrono = "0.4"
rand = "0.8"
postgres = "0.19"
csv = "1"
encoding_rs = "0.8"
encoding_rs_io = "0.1"
fuzzy-matcher = "0.3"
