[package]
name = "engine"
version = "0.1.0"
edition = "2021"
publish = false

[dependencies]
slotmap = "=1.1.1"
rand = "=0.10.3"
rand_distr = "=0.6.0"
serde = { version = "=1.0.229", features = ["derive"] }
serde_json = "=1.0.154"
clap = { version = "=4.6.7", features = ["derive"] }
thiserror = "=2.0.21"
anyhow = "=1.0.104"
strum_macros = "=0.28.0"
schemars = "=0.9.0"
axum = "=0.8.9"
aide = { version = "=0.15.1", features = ["axum", "axum-json"] }
tokio = { version = "=1.54.1", features = ["full"] }
aws-config = "=1.13.0"
aws-sdk-s3 = "=1.157.0"
ahash = "=0.8.12"
