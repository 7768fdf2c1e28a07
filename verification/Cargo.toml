[package]
name = "functions"
version = "0.1.0"
edition = "2021"
publish = false

[dependencies]
anyhow = "1"
base64 = "0.22"
chrono = "0.4"
flate2 = "1"
md5 = "0.7"
moka = { version = "0.12", features = ["future"] }
once_cell = "1"
redis = { version = "*", features = ["tokio-comp"] }
serde = { version = "1", features = ["derive"] }
serde_json = "1"
tokio = { version = "1", features = ["sync", "rt", "macros"] }
urlencoding = "2"
uuid = { version = "1", features = ["v4", "v7"] }
