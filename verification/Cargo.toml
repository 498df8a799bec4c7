[package]
name = "kassa_lt"
version = "0.1.0"
edition = "2021"
publish = false

[dependencies]
csv = "=1.4.0"
rusqlite = { version = "=0.41.1", features = ["bundled", "backup"] }
r2d2 = "=0.8.10"
serde = { version = "=1.0.229", features = ["derive"] }
serde_json = "=1.0.154"
chrono = "=0.4.45"
uuid = { version = "=1.29.1", features = ["v4"] }
tokio = { version = "=1.54.1", features = ["sync", "time", "macros", "rt-multi-thread", "fs"] }
log = "=0.4.35"
reqwest_dav = "=0.3.3"
