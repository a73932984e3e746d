[package]
name = "wechat_query"
version = "0.1.0"
edition = "2021"
publish = false

[dependencies]
anyhow = "1"
chrono = "0.4"
md5 = "0.7"
regex = "1"
rusqlite = { version = "0.32", features = ["bundled"] }
serde_json = "1"
tokio = { version = "1", features = ["rt"] }
zstd = "0.13"
