[package]
name = "agent"
version = "0.1.0"
edition = "2021"
publish = false

[dependencies]
anyhow = "=1.0.104"
async-openai = { version = "=0.43.0", features = ["chat-completion", "embedding"] }
async-stream = "=0.3.6"
backon = "=1.6.0"
base64 = "=0.22.1"
chrono = "=0.4.45"
csv = "=1.4.0"
dotenvy = "=0.15.7"
futures = "=0.3.34"
reqwest = { version = "=0.13.5", features = ["json", "query"] }
rmcp = { version = "=3.8.0", features = ["client", "transport-child-process", "transport-streamable-http-client-reqwest"] }
schemars = "=1.2.3"
serde = { version = "=1.0.229", features = ["derive"] }
serde_json = "=1.0.154"
tiktoken-rs = "=0.12.1"
tokio = { version = "=1.54.1", features = ["sync", "rt", "rt-multi-thread", "macros", "time", "fs", "process", "io-std", "io-util"] }
tracing = "=0.1.44"
tracing-subscriber = "=0.3.23"
zip = "=9.2.2"
