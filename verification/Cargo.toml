[package]
name = "tokenbar"
version = "0.1.0"
edition = "2021"
publish = false

[dependencies]
chrono = "=0.4.45"
serde_json = "=1.0.154"
gtk4 = { version = "=0.11.5", features = ["v4_12"] }
libadwaita = { version = "=0.9.2", features = ["v1_4"] }
async-channel = "=2.5.0"
dirs = "=7.0.0"
glam = "=0.33.12"
glow = "=0.18.0"
ksni = { version = "=0.3.7", features = ["blocking"] }
libloading = "=0.9.0"
