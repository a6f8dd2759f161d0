[package]
name = "ssh_chat"
version = "0.1.0"
edition = "2021"
publish = false

[dependencies]
uuid = { version = "*", features = ["v4"] }
rand = "*"
tokio = { version = "*", features = ["rt-multi-thread", "macros", "net", "io-util", "time", "sync"] }
russh = "*"
ratatui = "*"
crossterm = "*"
maxminddb = "*"
toml = "*"
serde = { version = "*", features = ["derive"] }
anyhow = "*"
parking_lot = "*"
