[package]
name = "fmc"
version = "0.1.0"
edition = "2021"
publish = false

[dependencies]
serde = { version = "1", features = ["derive"] }
serde_json = "1"
bincode = "1"
zstd = "0.13"
rand = "0.8"
indexmap = "2"
once_cell = "1"
crossbeam = "0.8"
rusqlite = { version = "*", features = ["bundled"] }
tar = "0.4"
