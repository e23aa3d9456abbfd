[package]
name = "supergravity"
version = "0.1.0"
edition = "2021"
publish = false

[dependencies]
async-stream = "0.3"
async-trait = "0.1"
directories = "6"
futures = "0.3"
glob = "=0.3.4"
keyring = "3"
regex = "=1.13.1"
reqwest = { version = "0.12", default-features = false, features = ["json", "stream", "rustls-tls"] }
rusqlite = { version = "0.32", features = ["bundled"] }
serde = { version = "1", features = ["derive"] }
serde_json = "=1.0.154"
thiserror = "2"
tokio = { version = "1", features = ["rt-multi-thread", "macros", "time", "process", "sync"] }
tokio-util = "0.7"
toml = "0.8"
uuid = { version = "=1.29.0", features = ["v4"] }
walkdir = "2"
