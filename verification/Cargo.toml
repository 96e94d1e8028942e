[package]
name = "qcperf-tui"
version = "0.1.0"
edition = "2021"
publish = false

[dependencies]
crossterm = "=0.28.1"
getrandom = "=0.4.3"
ratatui = "=0.29.0"
serde = { version = "=1.0.229", features = ["derive"] }
serde_json = "=1.0.154"
thiserror = "=2.0.21"
toml = "=0.8.23"
uuid = { version = "=1.29.0", features = ["v4", "serde"] }
