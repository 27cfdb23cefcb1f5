[package]
name = "replication"
version = "0.1.0"
edition = "2021"
publish = false

[dependencies]
data-encoding = "*"
anyhow = "*"
clap = { version = "*", features = ["derive"] }
home = "*"
log = "*"
flume = "*"
scopeguard = "*"
url = "*"
serde = { version = "*", features = ["derive"] }
serde_json = "*"
