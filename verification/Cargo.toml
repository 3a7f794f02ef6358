[package]
name = "tauri-plugin-fingerprint"
version = "0.1.0"
edition = "2021"
publish = false

[dependencies]
fprint-pipeline = "*"
nusb = "0.2"
png = "0.17"
base64 = "0.22"
serde = { version = "1", features = ["derive"] }
thiserror = "2"
tauri = { version = "2", default-features = false }
