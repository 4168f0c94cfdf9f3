[package]
name = "thunderspear"
version = "0.1.0"
edition = "2021"
publish = false

[dependencies]
serde = { version = "*", features = ["derive"] }
serde_json = "*"
tokio = { version = "1", features = ["rt-multi-thread", "macros", "sync", "time"] }
reqwest = { version = "*", default-features = false, features = ["rustls-tls", "stream", "json"] }
futures = "*"
log = "*"
pretty_env_logger = "*"
