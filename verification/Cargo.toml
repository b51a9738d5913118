[package]
name = "shardedobjstr"
version = "0.1.0"
edition = "2021"
publish = false

[dependencies]
async-trait = "=0.1.92"
bincode = "=1.3.3"
bytes = "=1.12.1"
chrono = { version = "=0.4.45", features = ["serde"] }
crc32c = "=0.6.9"
futures = "=0.3.34"
md5 = "=0.7.0"
object_store = { version = "=0.12.5", features = ["aws"] }
parking_lot = "=0.12.5"
pyo3 = { version = "=0.22.6", features = ["abi3-py38"] }
serde = { version = "=1.0.229", features = ["derive"] }
serde_json = "=1.0.154"
thiserror = "=2.0.21"
tokio = { version = "=1.54.1", features = ["full"] }
tracing = "=0.1.44"
