[package]
name = "tg_opencode"
version = "0.1.0"
edition = "2021"
publish = false
rust-version = "1.95"

[dependencies]
anyhow = "=1.0.104"
dptree = "=0.3.0"
html-escape = "=0.2.15"
regex = "=1.13.1"
serde = { version = "=1.0.229", features = ["derive"] }
serde_json = "=1.0.154"
takecell = "=0.1.1"
teloxide = { version = "=0.12.2", default-features = false, features = ["macros", "rustls", "ctrlc_handler"] }
tokio = { version = "=1.54.1", features = ["full"] }
tokio-util = "=0.7.20"
tracing = "=0.1.44"
tracing-subscriber = { version = "=0.3.23", features = ["env-filter"] }
