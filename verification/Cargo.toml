[package]
name = "moose_rack_core"
version = "0.1.0"
edition = "2021"
publish = false

[dependencies]
anyhow = "1"
axum = { version = "0.8", features = ["multipart"] }
base64 = "0.22"
clap = { version = "4", features = ["derive", "env"] }
getrandom = "0.3"
hex = "0.4"
md-5 = "0.10"
pbkdf2 = "0.12"
rusqlite = { version = "0.32", features = ["bundled"] }
serde = { version = "1", features = ["derive"] }
serde_json = "1"
sha1 = "0.10"
sha2 = "0.10"
subtle = "2"
tokio = { version = "1", features = ["rt-multi-thread", "macros", "net", "fs"] }
toml = "0.8"
tower = { version = "0.5", features = ["util"] }
tower-http = { version = "0.6", features = ["fs"] }
