[package]
name = "bittorrent_client"
version = "0.1.0"
edition = "2021"
publish = false

[dependencies]
anyhow = "1"
bendy = "0.3"
rand = "0.8"
reqwest = { version = "0.12", default-features = false, features = ["blocking", "rustls-tls"] }
serde = { version = "1", features = ["derive"] }
serde_json = "1"
sha1 = "0.10"
tokio = { version = "1", features = ["full"] }
url = "2"
walkdir = "2"
