[package]
name = "butterfly_scraper"
version = "0.1.0"
edition = "2021"
publish = false

[dependencies]
rand = "0.9"
tokio = { version = "1", features = ["rt-multi-thread", "macros", "time", "sync"] }
reqwest = { version = "0.12", default-features = false }
futures = "0.3"
indicatif = "0.17"
log = "0.4"
env_logger = "0.11"
clap = { version = "4", features = ["derive"] }
csv = "1"
serde = { version = "1", features = ["derive"] }
scraper = "0.23"
