[package]
name = "raft"
version = "0.1.0"
edition = "2021"
publish = false

[dependencies]
uuid = { version = "=1.29.0", features = ["v7"] }
clap = { version = "=4.6.7", features = ["derive"] }
tokio = { version = "=1.54.1", features = ["full"] }
rand = "=0.9.5"
tracing = "=0.1.44"
tracing-subscriber = { version = "=0.3.23", features = ["json"] }
serde = { version = "1", features = ["derive"] }
serde_json = "1"
