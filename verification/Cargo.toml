[package]
name = "euchre"
version = "0.1.0"
edition = "2021"
publish = false

[dependencies]
ansi_term = "0.12"
anyhow = "1"
clap = { version = "4", features = ["derive"] }
itertools = "0.13"
rand = "0.8"
ratatui = "0.28"
serde = { version = "1", features = ["derive"] }
serde_json = "1"
thiserror = "1"
