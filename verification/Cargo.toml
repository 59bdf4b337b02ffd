[package]
name = "stm32_data_mcp"
version = "0.1.0"
edition = "2021"
publish = false

[dependencies]
anyhow = "1"
rmcp = { version = "3", features = ["server", "macros", "transport-io"] }
schemars = "1"
serde = { version = "1", features = ["derive"] }
serde_json = "1"
tokio = { version = "1", features = ["macros", "rt-multi-thread", "io-std"] }
tracing-subscriber = { version = "0.3", features = ["env-filter"] }
