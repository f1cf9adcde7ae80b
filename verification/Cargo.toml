[package]
name = "zcode-speed-panel"
version = "0.1.0"
edition = "2021"
publish = false

[dependencies]
chrono = "0.4"
serde_json = "1"
serde = { version = "1", features = ["derive"] }
rusqlite = { version = "*", features = ["bundled"] }
ureq = { version = "2", features = ["json"] }
winreg = "*"
