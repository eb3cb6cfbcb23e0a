[package]
name = "mav_bridge"
version = "0.1.0"
edition = "2021"
publish = false

[dependencies]
mavlink = { version = "*", features = ["ardupilotmega", "serde"] }
serde = "*"
serde_json = "*"
clap = { version = "*", features = ["derive"] }
tokio = { version = "*", default-features = false, features = ["rt-multi-thread", "sync", "time"] }
zenoh = { version = "*", default-features = false }
