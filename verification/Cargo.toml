[package]
name = "iptv_catalog"
version = "0.1.0"
edition = "2021"
publish = false

[dependencies]
chrono = "*"
crc32fast = "*"
serde = { version = "*", features = ["derive"] }
serde_json = "*"
quick-xml = { version = "*", features = ["serialize"] }
rusqlite = { version = "*", features = ["bundled"] }
reqwest = { version = "*", default-features = false, features = ["rustls-tls", "json"] }
tokio = { version = "*", features = ["rt-multi-thread", "macros"] }
