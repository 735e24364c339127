[package]
name = "rfast"
version = "0.1.0"
edition = "2021"
publish = false

[dependencies]
anyhow = "1"
clap = { version = "4", features = ["derive"] }
clap_complete = "4"
colored = "2"
dirs = "5"
hex = "0.4"
sha2 = "0.10"
tempfile = "3"
toml = "0.8"
