[package]
name = "subkatsu"
version = "0.1.0"
edition = "2021"
publish = false

[dependencies]
tinysegmenter = "*"
rand = "*"
subparse = "*"
structopt = "*"
slog = "*"
slog-async = "*"
slog-term = "*"
serde = "*"
serde_derive = "*"
serde_json = "*"
walkdir = "*"
tempfile = "*"
base64 = "*"
