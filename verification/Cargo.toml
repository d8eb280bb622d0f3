[package]
name = "desktop_defender"
version = "0.1.0"
edition = "2021"
publish = false

[dependencies]
base64 = "0.22"
chrono = "0.4"
csv = "1"
dirs = "5"
dotenvy = "0.15"
ipinfo = "*"
once_cell = "1"
pcap = "*"
pnet = "*"
reqwest = { version = "0.11", features = ["blocking"] }
rusqlite = "*"
serde = { version = "1", features = ["derive"] }
serde_json = "1"
threadpool = "1"
tokio = { version = "1", features = ["full"] }

[dev-dependencies]
regex = "1"
