[package]
name = "led_visualizer"
version = "0.1.0"
edition = "2021"
publish = false

[dependencies]
flate2 = "1"
anyhow = "1"
serde = { version = "1", features = ["derive"] }
serde_json = "1"
parking_lot = "0.12"
rayon = "1"
rustfft = "6"
apodize = "*"
num-complex = "0.4"
toml = "*"
tokio = { version = "1", features = ["full"] }
tokio-tungstenite = "*"
futures-util = "0.3"
libc = "0.2"
bitflags = "2"
cpal = "*"
