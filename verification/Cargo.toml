[package]
name = "treeq"
version = "0.1.0"
edition = "2021"
publish = false

[dependencies]
clap = { version = "4", features = ["derive"] }
clap_complete = "4"
crossterm = "0.28"
ratatui = "0.29"
roxmltree = "0.20"
serde_json = { version = "1", features = ["preserve_order"] }
serde_yaml = "0.9"
