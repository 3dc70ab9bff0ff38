[package]
name = "netsim"
version = "0.1.0"
edition = "2021"
publish = false

[dependencies]
rand = "0.8"
uuid = { version = "1", features = ["v4"] }
clap = "4"
serde = { version = "1", features = ["derive"] }
serde_json = "1"
