[package]
name = "chargelog"
version = "0.1.0"
edition = "2021"
publish = false

[dependencies]
anyhow = "*"
const_format = "*"
env_logger = "*"
futures = "*"
log = "*"
reqwest = { version = "*", default-features = false, features = ["json"] }
serde = { version = "*", features = ["derive"] }
serde_json = "*"
tokio = { version = "*", features = ["macros", "rt-multi-thread", "time"] }
