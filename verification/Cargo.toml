[package]
name = "soop3"
version = "0.1.0"
edition = "2021"
publish = false

[dependencies]
axum = { version = "*", features = ["multipart"] }
base64 = "*"
chrono = "*"
http-range-header = "*"
mime_guess = "*"
regex = "*"
tokio = { version = "*", features = ["rt-multi-thread", "macros", "net", "fs", "io-util"] }
tokio-util = { version = "*", features = ["io"] }
