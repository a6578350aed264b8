[package]
name = "skein"
version = "0.1.0"
edition = "2021"
publish = false

[dependencies]
async-trait = "*"
blake3 = "*"
clap = { version = "*", features = ["derive"] }
futures-util = "*"
hex = "*"
postcard = { version = "*", features = ["alloc"] }
rand = "*"
serde = { version = "*", features = ["derive"] }
serde_json = "*"
tempfile = "*"
thiserror = "*"
tokio = { version = "*", features = ["full"] }
tokio-stream = "*"
uuid = { version = "*", features = ["v4", "serde"] }
