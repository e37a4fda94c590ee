[package]
name = "git_sshripped"
version = "0.1.0"
edition = "2021"
publish = false

[dependencies]
age = { version = "0.11", features = ["ssh"] }
anyhow = "1"
base64 = "0.22"
reqwest = { version = "0.12", default-features = false, features = ["blocking", "rustls-tls"] }
serde = { version = "1", features = ["derive"] }
serde_json = "1"
sha2 = "0.10"
toml = "0.8"
tracing-subscriber = { version = "0.3", features = ["env-filter", "fmt"] }
