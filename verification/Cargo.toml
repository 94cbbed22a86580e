[package]
name = "argos_engine"
version = "0.2.1"
edition = "2021"
publish = false

[dependencies]
base64 = "*"
futures = "*"
percent-encoding = "*"
primp = "*"
reqwest = { version = "*", features = ["json"] }
scraper = "*"
serde = { version = "1", features = ["derive"] }
serde_json = "1"
thiserror = "*"
tokio = { version = "*", features = ["full"] }
url = "*"
