[package]
name = "dracoshell"
version = "0.1.0"
edition = "2021"
publish = false

[dependencies]
alacritty_terminal = "=0.24.2"
anyhow = "1"
bytemuck = { version = "1", features = ["derive"] }
dirs = "5"
env_logger = "0.11"
fontdue = "0.9"
image = { version = "0.25", default-features = false, features = ["png"] }
log = "0.4"
objc = "0.2"
pollster = "0.3"
serde = { version = "1", features = ["derive"] }
toml = "0.8"
