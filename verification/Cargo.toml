[package]
name = "parasol"
version = "0.1.0"
edition = "2021"
publish = false

[dependencies]
anyhow = "1"
async-tempfile = "*"
clap = { version = "4", features = ["derive"] }
regex = "1"
serde_json = "1"
sysinfo = "*"
tempfile = "3"
thiserror = "2"
tokio = { version = "1", features = ["full"] }
tokio-util = { version = "0.7", features = ["rt"] }
uuid = { version = "1", features = ["v4"] }
