[package]
name = "evergreen"
version = "0.1.0"
edition = "2021"
publish = false

[dependencies]
base64 = "0.21"
crossbeam-channel = "0.5"
ctrlc = "3"
kcp = "0.5"
pcap = "1"
rsa = "0.9"
serde = { version = "1", features = ["derive"] }
serde_json = "1"
tungstenite = "0.20"
url = "2"
ws = "0.9"
