[package]
name = "file_session_store"
version = "0.1.0"
edition = "2021"
publish = false

[dependencies]
async-trait = "*"
serde_json = "*"
time = "*"
tokio = { version = "*", features = ["fs"] }
tower-sessions-core = "*"
