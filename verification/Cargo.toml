[package]
name = "macdirstat"
version = "0.3.1"
edition = "2021"
publish = false

[dependencies]
anyhow = "1"
base64 = "0.22"
blake3 = "1"
chrono = { version = "0.4", default-features = false, features = ["clock"] }
clap = { version = "4", features = ["derive"] }
crossbeam-channel = "0.5"
crossterm = "0.29"
directories = "6"
notify = "8"
ratatui = "0.30"
serde = { version = "1", features = ["derive"] }
serde_json = "1"
slotmap = "1"
thiserror = "2"
toml = "0.9"
trash = "5"
walkdir = "2"

[dev-dependencies]
tempfile = "3"
