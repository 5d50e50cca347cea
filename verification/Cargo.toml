[package]
name = "chenv"
version = "0.1.0"
edition = "2021"
publish = false

[dependencies]
sha2 = "=0.10.9"
url = "=2.5.8"
serde = { version = "*", features = ["derive"] }
serde_json = "*"
serde_yaml = "*"
clap = { version = "*", features = ["derive"] }
anyhow = "*"
env_logger = { version = "*", default-features = false }
reqwest = { version = "=0.12.28", default-features = false, features = ["blocking"] }
tempfile = "*"
nix = { version = "=0.29.0", features = ["fs"] }
