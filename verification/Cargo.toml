[package]
name = "rustdb"
version = "0.1.0"
edition = "2021"
publish = false

[dependencies]
hex = "0.4"
sha2 = "0.10"
serde = { version = "1", features = ["derive"] }
serde_json = "1"
reqwest = { version = "0.11", default-features = false, features = ["blocking", "json"] }
jsonrpc-core = "18"
jsonrpc-derive = "18"
jsonrpc-http-server = "18"
