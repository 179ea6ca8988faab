[package]
name = "urs_tree"
version = "0.1.0"
edition = "2021"
publish = false

[dependencies]
anyhow = "1"
base64 = "0.13"
csv = "1"
flate2 = "1"
globset = "0.4"
log = "0.4"
quick-xml = "0.22"
reqwest = { version = "0.11", features = ["blocking"] }
serde = { version = "1", features = ["derive"] }
serde_json = "1"
serde-xml-rs = "0.4"
simplelog = "0.12"
structopt = "0.3"
walkdir = "2"

[dev-dependencies]
regex = "1"
