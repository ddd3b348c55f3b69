[package]
name = "sonic_gateway"
version = "0.1.0"
edition = "2021"
publish = false

[dependencies]
anyhow = "1"
async-std = { version = "1", features = ["attributes"] }
driftwood = "*"
go-flag = "*"
http-types = "2"
lazy_static = "1"
rmp-serde = "1"
rocksdb = "*"
serde = { version = "1", features = ["derive"] }
serde_derive = "1"
serde_json = "1"
sonic-channel = { version = "1", features = ["ingest", "search"] }
surf = "2"
tide = "0.16"
tide-acme = "*"
tide-rustls = "*"
uuid = { version = "1", features = ["serde"] }
