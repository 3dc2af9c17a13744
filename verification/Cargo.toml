[package]
name = "tuliprox_store"
version = "0.1.0"
edition = "2021"
publish = false

[dependencies]
lz4_flex = "0.11"
serde = { version = "1", features = ["derive"] }
serde_json = "1"
tempfile = "3"
fs2 = "0.4"
memmap2 = "0.9"
indexmap = "2"
log = "0.4"
