[package]
name = "searchlight"
version = "0.1.0"
edition = "2021"
publish = false

[dependencies]
base64 = "=0.22.1"
dirs = "=6.0.0"
fuzzy-matcher = "=0.3.7"
image = { version = "=0.24.9", default-features = false, features = ["png"] }
serde = { version = "=1.0.229", features = ["derive"] }
walkdir = "=2.5.0"
winapi = { version = "=0.3.9", features = ["shellapi", "windef", "wingdi", "winuser"] }
winreg = "=0.52.0"
