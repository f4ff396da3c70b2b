[package]
name = "blueprint_helpers"
version = "0.1.0"
edition = "2021"
publish = false

[dependencies]
base64 = "0.22"
clap = { version = "4", features = ["derive"] }
crossterm = { version = "0.29", features = ["osc52"] }
flate2 = "1"
sanitize-filename = "*"
serde = { version = "1", features = ["derive"] }
serde_json = { version = "1", features = ["preserve_order"] }
