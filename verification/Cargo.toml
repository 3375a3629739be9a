[package]
name = "firmware_inventory"
version = "0.1.0"
edition = "2021"
publish = false

[dependencies]
quick-xml = "0.37"
url = "2"
semver = "1"
serde = { version = "1", features = ["derive"] }
serde_json = "1"
anyhow = "1"
log = "0.4"
clap = { version = "4", features = ["derive"] }
glob = "0.3"
dirs = "5"
reqwest = { version = "0.12", default-features = false }
