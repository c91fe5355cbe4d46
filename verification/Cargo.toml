[package]
name = "crabgraph"
version = "0.1.0"
edition = "2021"
publish = false

[dependencies]
futures = "0.3"
modify = "*"
serde = { version = "1", features = ["derive"] }
serde_json = "1"
thiserror = "*"
tokio = { version = "1", features = ["rt", "rt-multi-thread", "macros", "sync"] }
tracing = "0.1"
