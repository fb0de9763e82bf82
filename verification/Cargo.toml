[package]
name = "smarty_pants"
version = "0.1.0"
edition = "2021"
publish = false

[dependencies]
md-5 = "0.10"
image = { version = "0.25", default-features = false, features = ["png"] }
csv = "1"
regex = "1"
serde = { version = "1", features = ["derive"] }
serde_json = "1"
http = "1"
rfd = { version = "0.15", default-features = false, features = ["gtk3"] }
tauri = { version = "2", default-features = false }
