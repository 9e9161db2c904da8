[package]
name = "license_tool"
version = "0.1.0"
edition = "2021"
publish = false

[dependencies]
anyhow = "1"
cargo_metadata = "=0.22.0"
cargo-util-schemas = "=0.8.2"
clap = { version = "4", features = ["derive"] }
csv = "1"
regex = "=1.13.1"
serde = { version = "1", features = ["derive"] }
serde_json = "1"
toml = "1.1"
