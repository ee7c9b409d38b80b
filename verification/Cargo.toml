[package]
name = "gbin"
version = "0.1.0"
edition = "2021"
publish = false

[dependencies]
anyhow = "1"
clap = { version = "4", features = ["derive"] }
crc32fast = "1"
crossterm = "0.28"
flate2 = "1"
ratatui = "0.29"
regex = "1"
serde = { version = "1", features = ["derive"] }
serde_json = { version = "1", features = ["preserve_order"] }
tempfile = "3"
thiserror = "1"
time = { version = "0.3", features = ["macros", "formatting"] }
