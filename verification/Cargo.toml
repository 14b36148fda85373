[package]
name = "raminfo"
version = "0.1.0"
edition = "2021"
publish = false

[dependencies]
colored = "2"
ctrlc = "3"
libc = "0.2"
ratatui = "0.29"
serde = { version = "1", features = ["derive"] }
serde_json = "1"
