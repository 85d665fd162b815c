[package]
name = "dfs_core"
version = "0.1.0"
edition = "2021"
publish = false

[dependencies]
serde = { version = "1", features = ["derive"] }
serde_json = "1"
thiserror = "1"
dotenv = "*"
env_logger = "*"
lazy_static = "1"
