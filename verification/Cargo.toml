[package]
name = "grpc_json_codec"
version = "0.1.0"
edition = "2021"
publish = false

[dependencies]
anyhow = "1"
clap = { version = "4", features = ["derive"] }
colored = "2"
edit = "0.1"
env_logger = "0.11"
futures = "0.3"
reqwest = { version = "=0.12.28", features = ["stream", "native-tls"] }
tokio = { version = "1", features = ["rt-multi-thread", "macros"] }
url = "2"
