[package]
name = "diskplan"
version = "0.1.0"
edition = "2021"
publish = false

[dependencies]
regex = "1"
users = "0.11"
nix = { version = "0.29", features = ["user", "fs"] }
anyhow = "1"
camino = "1"
clap = { version = "4", features = ["derive"] }
serde = { version = "1", features = ["derive"] }
toml = "0.8"
serde_json = "1"
tracing = "0.1"
tracing-subscriber = "0.3"
