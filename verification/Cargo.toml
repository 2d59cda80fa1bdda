[package]
name = "log_replication"
version = "0.1.0"
edition = "2021"
publish = false

[dependencies]
p2panda-core = "=0.6.1"
hex = "=0.4.3"
serde = { version = "=1.0.229", features = ["derive"] }
serde_json = "=1.0.151"
