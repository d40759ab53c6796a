[package]
name = "stori"
version = "0.1.3"
edition = "2021"
publish = false

[dependencies]
zip = { version = "2", default-features = false, features = ["deflate"] }
roxmltree = "0.20"
sha2 = "0.10"
chrono = "0.4"
reqwest = { version = "0.12", default-features = false, features = ["rustls-tls", "stream", "json"] }
serde = { version = "1", features = ["derive"] }
serde_json = "1"
rusqlite = { version = "0.32", features = ["bundled"] }
tokio = { version = "1", features = ["full"] }
axum = "0.8"
tower-http = { version = "0.6", features = ["cors", "fs", "trace"] }
uuid = { version = "1", features = ["v4"] }
rand = "0.9"
walkdir = "2"
fs2 = "0.4"
dirs = "6"
local-ip-address = "0.6"
mime_guess = "2"
parking_lot = "0.12"
futures-util = "0.3"
tracing = "0.1"
tracing-subscriber = { version = "0.3", features = ["env-filter"] }
thiserror = "2"
