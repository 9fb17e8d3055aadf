[package]
name = "loc_viewer"
version = "0.1.0"
edition = "2021"
publish = false

[dependencies]
tokei = "12"
base64 = "0.22"
gloo = "0.11"
futures = "0.3"
serde = { version = "1", features = ["derive"] }
serde_json = "1"
