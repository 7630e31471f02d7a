[package]
name = "datacenter_simulator"
version = "0.1.0"
edition = "2021"
publish = false

[dependencies]
uuid = { version = "=1.29.0", features = ["v4"] }
chrono = "=0.4.45"
petgraph = "=0.8.3"
sha2 = "=0.11.1"
serde = { version = "=1.0.229", features = ["derive"] }
serde_json = "=1.0.154"
anyhow = "=1.0.104"
thiserror = "=2.0.21"
serde_yaml = "0.9"
