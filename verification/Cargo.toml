[package]
name = "nargun"
version = "0.1.0"
edition = "2021"
publish = false

[dependencies]
openssl = "=0.10.82"
rand = "=0.8.8"
urlencoding = "=2.1.3"
bendy = { version = "=0.3.3", features = ["serde"] }
serde = { version = "=1.0.229", features = ["derive"] }
bincode = "=1.3.3"
tokio = { version = "=1.54.1", features = ["full"] }
clap = { version = "=4.6.7", features = ["derive"] }
anyhow = "=1.0.104"
bytes = "=1.12.1"
home = "=0.5.12"
tracing = "=0.1.44"
tracing-subscriber = "=0.3.23"
reqwest = "*"
igd = "*"
local-ip-address = "*"
async-trait = "*"
