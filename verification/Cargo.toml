[package]
name = "uslu"
version = "0.1.0"
edition = "2021"
publish = false

[dependencies]
uuid = { version = "1", features = ["v4"] }
base64 = "0.22"
serde = { version = "1", features = ["derive"] }
tokio = { version = "1", features = ["rt"] }
image = { version = "0.25", default-features = false, features = ["png", "jpeg", "webp"] }
