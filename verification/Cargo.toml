[package]
name = "ramort"
version = "0.1.0"
edition = "2021"
publish = false

[dependencies]
serde = { version = "=1.0.229", features = ["derive"] }
serde_json = "=1.0.154"
toml = "=0.8.23"
clap = { version = "=4.6.7", features = ["derive"] }
thiserror = "=1.0.69"
good_lp = { version = "=1.15.3", default-features = false, features = ["microlp"] }
