[package]
name = "npump"
version = "0.1.0"
edition = "2021"
publish = false

[dependencies]
anyhow = "1"
crossterm = "0.28"
glob = "0.3"
percent-encoding = "2"
ratatui = "0.29"
reqwest = { version = "0.12", default-features = false, features = ["blocking", "json", "rustls-tls"] }
semver = "1"
serde_json = "1"

[dev-dependencies]
regex = "1"
