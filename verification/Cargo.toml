[package]
name = "staple_checklist"
version = "0.1.0"
edition = "2021"
publish = false

[dependencies]
anyhow = "=1.0.104"
clap = { version = "=4.6.7", features = ["derive"] }
cursive = { version = "=0.21.1", default-features = false, features = ["crossterm-backend"] }
dirs = "=7.0.0"
futures-util = "=0.3.34"
fuzzy-matcher = "=0.3.7"
open = "=5.4.5"
reqwest = { version = "=0.12.28", features = ["stream"] }
scraper = "=0.29.0"
scryfall = "=0.25.0"
serde = { version = "=1.0.229", features = ["derive"] }
serde_json = "=1.0.154"
tempfile = "=3.27.0"
tokio = { version = "=1.54.1", features = ["full"] }
uuid = { version = "=1.29.0", features = ["serde"] }
