[package]
name = "ipscan"
version = "0.1.0"
edition = "2021"
publish = false

[dependencies]
ipnet = "2"
anyhow = "1"
clap = { version = "4", features = ["derive"] }
tokio = { version = "1", features = ["full"] }
indicatif = "0.17"
socket2 = { version = "0.5", features = ["all"] }
