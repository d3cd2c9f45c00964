[package]
name = "jda"
version = "0.1.0"
edition = "2021"
publish = false

[dependencies]
url = "2"
urlencoding = "2"
reqwest = { version = "0.12", default-features = false }
serde = { version = "1", features = ["derive"] }
serde_json = "1"
tokio = { version = "1", features = ["full"] }
futures-util = "0.3"
axum = "0.8"
tower-http = { version = "0.6", features = ["cors"] }
arboard = "3"
