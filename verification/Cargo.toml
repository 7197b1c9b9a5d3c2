[package]
name = "qc_balance"
version = "0.1.0"
edition = "2021"
publish = false

[dependencies]
rand = "=0.9.5"
serde = { version = "=1.0.229", features = ["derive"] }
serde_json = "=1.0.154"
anyhow = "=1.0.104"
tokio = { version = "=1.54.1", features = ["rt-multi-thread", "macros", "fs", "signal", "sync"] }
twilight-gateway = "=0.18.0"
twilight-http = "=0.18.0"
twilight-model = "=0.18.0"
twilight-cache-inmemory = "=0.18.0"
twilight-util = { version = "=0.18.0", features = ["builder"] }
twilight-interactions = "=0.18.0"
tracing = "=0.1.44"
tracing-subscriber = "=0.3.23"
dotenv = "=0.15.0"
octocrab = "=0.47.1"
base64 = "=0.22.1"
bytes = "=1.12.1"
async-trait = "=0.1.92"
