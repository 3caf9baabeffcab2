[package]
name = "hangman2"
version = "0.1.0"
edition = "2021"
publish = false

[dependencies]
anyhow = "1"
axum = "0.8"
base64 = "0.22"
bincode = "1"
clap = { version = "4", features = ["derive"] }
dashmap = "6"
futures = "0.3"
rayon = "1"
rustc-hash = "2"
saferlmdb = "*"
serde = { version = "1", features = ["derive"] }
tokio = { version = "1", features = ["full"] }
tower-http = { version = "0.6", features = ["fs"] }
tracing = "0.1"
tracing-subscriber = { version = "0.3", features = ["env-filter"] }
uuid = { version = "1", features = ["v4"] }
