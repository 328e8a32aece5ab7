[package]
name = "source_map"
version = "0.1.0"
edition = "2021"
publish = false

[dependencies]
vlq = "*"
source-map-mappings = "*"
serde = { version = "*", features = ["derive"] }
serde_json = "*"
