[package]
name = "taxi_data_api"
version = "0.1.0"
edition = "2021"
publish = false

[dependencies]
actix-web = "*"
anyhow = "*"
chrono = "*"
env_logger = "*"
log = "*"
polars = { version = "*", features = ["lazy", "parquet"] }
reqwest = { version = "*", default-features = false }
serde = { version = "*", features = ["derive"] }
serde_json = "*"
tokio = { version = "*", features = ["rt-multi-thread", "macros", "fs"] }
