[package]
name = "rweb"
version = "0.1.0"
edition = "2021"
publish = false

[dependencies]
anyhow = "1"
thiserror = "2"
tokio = { version = "1", features = ["full"] }
tokio-native-tls = "0.3"
winit = "0.30"
softbuffer = "0.4"
skia-safe = "*"
