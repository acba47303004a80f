[package]
name = "config_compiler"
version = "0.1.0"
edition = "2021"
publish = false

[dependencies]
serde = { version = "*", features = ["derive"] }
serde_yaml = "*"
serde_json = "*"
clap = { version = "*", features = ["derive"] }
json-canon = "*"
path-clean = "*"
threadpool = "*"
toml = "*"
