[package]
name = "datamorph"
version = "0.1.0"
edition = "2021"
publish = false

[dependencies]
csv = "1"
serde = { version = "1", features = ["derive"] }
serde_json = "1"
serde_yaml = "0.9"
toml = "0.8"
jsonschema = { version = "0.17", default-features = false }
thiserror = "1"
clap = { version = "4", features = ["derive"] }
colored = "2"
indicatif = "0.17"
