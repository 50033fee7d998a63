[package]
name = "resource_manager"
version = "0.1.0"
edition = "2021"
publish = false

[dependencies]
anyhow = "1"
chrono = "=0.4.45"
log = "0.4"
nvml-wrapper = "0.10"
once_cell = "1"
reqwest = "0.12"
rfd = "0.15"
rusqlite = "=0.41.0"
scraper = "0.29"
serde = { version = "1", features = ["derive"] }
serde_json = "1"
sysinfo = "0.30"
thiserror = "1"
tokio = { version = "1", features = ["full"] }
uuid = { version = "1", features = ["v4"] }
walkdir = "=2.5.0"
wallpaper = "*"
