[package]
name = "tournament_export"
version = "0.1.0"
edition = "2021"
publish = false

[dependencies]
clap = { version = "4", features = ["derive"] }
quick-xml = { version = "0.31", features = ["serialize"] }
reqwest = { version = "0.12", features = ["blocking"] }
scraper = "0.19"
serde = "1"
serde_derive = "1"
serde_json = "1"
serde-xml-rs = "0.6"
