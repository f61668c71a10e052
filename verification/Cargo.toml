[package]
name = "longest_path_rs"
version = "0.1.0"
edition = "2021"
publish = false

[dependencies]
rayon = "1"
serde = "1"
serde_json = "1"
