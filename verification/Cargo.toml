[package]
name = "criterion-cbor"
version = "0.1.0"
edition = "2021"
publish = false

[dependencies]
chrono = { version = "0.4", features = ["serde"] }
criterion = { version = "0.5", default-features = false }
rusqlite = { version = "0.32", features = ["bundled"] }
serde = { version = "1", features = ["derive"] }
serde_cbor = "0.11"
thiserror = "1"
walkdir = "2"
