[package]
name = "tatermint"
version = "0.1.0"
edition = "2021"
publish = false

[dependencies]
base64 = "*"
chacha20poly1305 = "*"
rand = "*"
socket2 = "*"
tokio = { version = "*", features = ["full"] }
