[package]
name = "moonlight_web"
version = "0.1.0"
edition = "2021"
publish = false

[dependencies]
tokio = { version = "=1.54.1", features = ["full"] }
pem = "=3.0.6"
uuid = { version = "=1.29.0", features = ["v4"] }
chrono = "=0.4.45"
slab = "=0.4.12"
serde = { version = "=1.0.229", features = ["derive"] }
serde_json = "=1.0.154"
futures = "=0.3.34"
log = "=0.4.35"
anyhow = "=1.0.104"
simplelog = "=0.12.2"
actix-web = { version = "=4.18.1", default-features = false, features = ["macros"] }
actix-ws = "=0.3.1"
webrtc = "=0.12.0"
