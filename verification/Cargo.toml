[package]
name = "mcp-session"
version = "0.1.0"
edition = "2021"
publish = false

[dependencies]
futures-core = "=0.3.34"
rmcp = { version = "=1.6.0", default-features = false, features = ["server", "transport-streamable-http-server"] }
thiserror = "=2.0.21"
tokio = { version = "=1.54.1", features = ["rt", "sync", "time"] }
tracing = "=0.1.44"
