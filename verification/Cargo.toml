[package]
name = "lnchannels"
version = "0.1.0"
edition = "2021"
publish = false

[dependencies]
docopt = "1"
error-chain = "0.12"
jsonrpc = "*"
reqwest = { version = "0.12", features = ["blocking", "json", "gzip"] }
rocket = { version = "0.5", features = ["json"] }
rocket_dyn_templates = { version = "*", features = ["tera"] }
rusqlite = { version = "*", features = ["bundled"] }
serde = { version = "1", features = ["derive"] }
serde_json = "1"
tera = "1"
