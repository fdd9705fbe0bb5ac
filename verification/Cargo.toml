[package]
name = "pairs_trading"
version = "0.1.0"
edition = "2021"
publish = false

[dependencies]
chrono = "0.4"
polars = { version = "0.44", default-features = false, features = ["lazy", "parquet", "dtype-date", "dtype-datetime"] }
ctp2rs = "*"
clap = { version = "4", features = ["derive", "env"] }
tokio = { version = "1", features = ["full"] }
serde = { version = "1", features = ["derive"] }
serde_json = "1"
anyhow = "1"
thiserror = "*"
rand = "*"
log = "0.4"
env_logger = "*"
futures = "0.3"
async-trait = "0.1"
rayon = "1"
