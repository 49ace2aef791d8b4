[package]
name = "breadbox"
version = "0.1.0"
edition = "2021"
publish = false

[dependencies]
anyhow = "1"
clap = { version = "4", features = ["derive"] }
gtk4 = "0.9"
gtk4-layer-shell = "*"
serde = { version = "1", features = ["derive"] }
serde_json = "1"
toml = "0.8"
tracing-subscriber = { version = "0.3", features = ["env-filter"] }
ureq = "2"
