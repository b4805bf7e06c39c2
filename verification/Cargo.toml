[package]
name = "tenuki"
version = "0.1.0"
edition = "2021"
publish = false

[dependencies]
rustc-hash = "=2.1.3"
serde = { version = "=1.0.229", features = ["derive"] }
serde_json = "=1.0.154"
toml = "=0.8.23"
ureq = { version = "=2.12.1", default-features = false, features = ["json"] }
log = "=0.4.35"
anyhow = "=1.0.104"
regex = "=1.13.1"
urlencoding = "=2.1.3"
csv = "=1.4.0"
walkdir = "=2.5.0"
dashmap = "6"
