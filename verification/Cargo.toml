[package]
name = "fossil"
version = "0.1.0"
edition = "2021"
publish = false

[dependencies]
anyhow = "*"
chrono = "*"
clap = { version = "*", features = ["derive"] }
comfy-table = "*"
dirs = "*"
git2 = "*"
ignore = "*"
serde = { version = "*", features = ["derive"] }
serde_json = "*"
toml = "*"

[dev-dependencies]
tempfile = "*"
