[package]
name = "wokwi_server"
version = "0.1.0"
edition = "2021"
publish = false

[dependencies]
anyhow = "1"
base64 = "0.13"
bytes = "1"
clap = { version = "3", features = ["derive", "env"] }
esp-idf-part = "*"
espflash = "1"
futures-util = "0.3"
opener = "0.5"
serde = { version = "1", features = ["derive"] }
serde_json = "1"
tokio = { version = "1", features = ["full"] }
tokio-tungstenite = "0.17"
tungstenite = "0.17"
xmas-elf = "0.8"
