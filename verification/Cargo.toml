[package]
name = "hdfs_s3_gateway"
version = "0.1.0"
edition = "2021"
publish = false

[dependencies]
async-trait = "=0.1.92"
base64 = "=0.22.1"
bytes = "=1.12.1"
clap = { version = "=4.6.7", features = ["derive"] }
futures = "=0.3.34"
hdfs-native = "=0.14.8"
http = "=1.5.0"
http-body = "=1.1.0"
hyper = { version = "=1.12.0", features = ["server", "http1", "http2"] }
hyper-util = { version = "=0.1.21", features = ["server", "server-auto", "server-graceful", "http1", "http2", "tokio"] }
mime_guess = "2"
pyo3 = { version = "=0.30.1", features = ["extension-module", "abi3-py310"] }
s3s = "0.14"
serde = { version = "=1.0.229", features = ["derive"] }
thiserror = "=2.0.21"
time = "0.3"
tokio = { version = "=1.54.1", features = ["full"] }
tokio-util = { version = "=0.7.20", features = ["io"] }
toml = "*"
tracing = "=0.1.44"
tracing-subscriber = { version = "=0.3.23", features = ["env-filter"] }
