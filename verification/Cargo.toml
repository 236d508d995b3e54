[package]
name = "cli_wrapped"
version = "0.1.0"
edition = "2021"
publish = false

[dependencies]
chrono = "*"
colored = "*"
dirs = "*"
structopt = "*"
walkdir = "*"

[dev-dependencies]
serde_json = "*"
