[package]
name = "nasin"
version = "0.1.0"
edition = "2021"
publish = false

[dependencies]
chrono = { version = "*", features = ["serde"] }
dirs = "*"
serde = { version = "*", features = ["derive"] }
serde_json = "*"
ratatui = "*"
tui-widgets = "*"
