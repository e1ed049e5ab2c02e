[package]
name = "nvim_mcp"
version = "0.1.0"
edition = "2021"
publish = false

[dependencies]
dashmap = "=6.2.1"
jsonschema = { version = "=0.58.6", default-features = false }
serde = { version = "=1.0.229", features = ["derive"] }
serde_json = "=1.0.151"
rmpv = "=1.3.1"
tokio = { version = "=1.53.2", features = ["full"] }
futures = "=0.3.34"
async-trait = "=0.1.92"
rmcp = "=3.5.1"
hyper-util = "=0.1.21"
clap = { version = "=4.6.7", features = ["derive"] }
tracing = "=0.1.44"
tracing-appender = "=0.2.5"
tracing-subscriber = { version = "=0.3.23", features = ["env-filter"] }
