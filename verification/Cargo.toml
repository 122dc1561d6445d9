[package]
name = "taskdb"
version = "0.1.0"
edition = "2021"
publish = false

[dependencies]
taskchampion = { version = "=2.0.3", default-features = false, features = ["server-sync"] }
uuid = "=1.29.0"
serde_json = "=1.0.154"
anyhow = "=1.0.104"
