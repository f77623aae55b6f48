[package]
name = "steroidsoundboard"
version = "0.1.0"
edition = "2021"
publish = false

[dependencies]
anyhow = "1"
axum = { version = "0.8", features = ["ws"] }
cpal = "0.15"
dirs = "5"
env_logger = "0.11"
futures-util = "0.3"
local-ip-address = "0.6"
log = "0.4"
mime_guess = "=2.0.5"
rtrb = "=0.3.6"
rust-embed = { version = "=8.13.0", features = ["interpolate-folder-path"] }
serde = { version = "1", features = ["derive"] }
serde_json = "1"
tokio = { version = "1", features = ["full"] }
webbrowser = "1"
