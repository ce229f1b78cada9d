[package]
name = "ant-core"
version = "0.1.0"
edition = "2021"
publish = false

[dependencies]
ant-protocol = { version = "=5.0.1", default-features = false }
anyhow = "=1.0.104"
bytes = "=1.12.1"
clap = { version = "4", default-features = false, features = ["std", "derive", "help", "usage", "error-context"] }
fs2 = "0.4"
futures = "=0.3.34"
hex = "=0.4.3"
rand = "=0.8.8"
rmp-serde = "=1.3.1"
self_encryption = { version = "=0.36.2", default-features = false }
serde = { version = "=1.0.229", features = ["derive"] }
serde_json = "=1.0.154"
serde_with = "=3.11.0"
thiserror = "=1.0.69"
tokio = { version = "=1.54.1", features = ["rt-multi-thread", "macros", "sync", "time"] }
tracing = "=0.1.44"
xor_name = "=5.0.0"
