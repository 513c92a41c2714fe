[package]
name = "odyssey_core"
version = "0.1.0"
edition = "2021"
publish = false

[dependencies]
daggy = { version = "=0.9.0", features = ["stable_dag"] }
sha2 = "=0.10.9"
rand = "=0.8.8"
serde = { version = "=1.0.229", features = ["derive"] }
tokio = { version = "=1.53.2", features = ["full"] }
tokio-util = { version = "=0.7.19", features = ["codec"] }
tokio-serde = { version = "=0.9.0", features = ["cbor"] }
futures = "=0.3.34"
futures-channel = "=0.3.34"
bytes = "=1.12.1"
bitvec = "=1.1.1"
im = "=15.1.0"
