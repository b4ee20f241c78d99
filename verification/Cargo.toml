[package]
name = "grain_ws"
version = "0.1.0"
edition = "2021"
publish = false

[dependencies]
hex = "=0.4.3"
base64 = "=0.22.1"
url = "=1.7.2"
tokio = { version = "=1.53.2", features = ["full"] }
futures = "=0.3.34"
