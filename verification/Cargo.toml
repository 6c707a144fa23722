[package]
name = "files_reader_mcp"
version = "0.1.0"
edition = "2021"
publish = false

[dependencies]
anyhow = "1"
axum = "*"
flate2 = "1"
globset = "*"
hex = "0.4"
infer = "0.22"
quick-xml = "*"
regex = "1"
rmcp = { version = "*", features = ["server", "macros", "transport-streamable-http-server"] }
rustix = { version = "*", features = ["fs"] }
schemars = "*"
serde = { version = "1", features = ["derive"] }
serde_json = "1"
sha1 = "0.11"
similar = "3"
tokio = { version = "1", features = ["full"] }
tokio-util = "*"
toml = "1"

[dev-dependencies]
tempfile = "3"
