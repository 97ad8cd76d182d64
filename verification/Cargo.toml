[package]
name = "orderbook"
version = "0.1.0"
edition = "2021"
publish = false

[dependencies]
clap = { version = "3", features = ["derive"] }
compact_str = { version = "0.7", features = ["serde"] }
indexmap = "2"
rand = "0.8"
rust_decimal = { version = "1", features = ["serde"] }
serde = { version = "1", features = ["derive"] }
serde_json = "1"
thiserror = "1"
