[package]
name = "tui_mcp"
version = "0.1.0"
edition = "2021"
publish = false

[dependencies]
ab_glyph = "0.2"
anyhow = "1"
base64 = "0.22"
chrono = "0.4"
image = { version = "0.25", default-features = false, features = ["png"] }
nix = { version = "*", features = ["signal"] }
parking_lot = "0.12"
portable-pty = "*"
regex = "1"
rmcp = { version = "*", features = ["server", "macros", "transport-io"] }
schemars = "1"
serde = { version = "1", features = ["derive"] }
serde_json = "1"
tokio = { version = "1", features = ["macros", "rt-multi-thread", "time", "io-std"] }
tracing-subscriber = { version = "0.3", features = ["env-filter"] }
vt100 = "0.16"
