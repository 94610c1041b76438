[package]
name = "nexusdb"
version = "0.1.0"
edition = "2021"
publish = false

[dependencies]
anyhow = "=1.0.104"
crossbeam = "=0.8.5"
rusqlite = { version = "=0.41.0", features = ["bundled"] }
tempfile = "=3.27.0"
uuid = { version = "=1.29.0", features = ["v4"] }
