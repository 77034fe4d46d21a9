[package]
name = "thclaws_core"
version = "0.1.0"
edition = "2021"
publish = false

[dependencies]
base64 = "=0.22.1"
clap = { version = "=4.6.7", features = ["derive"] }
ed25519-dalek = "=2.2.0"
getrandom = "=0.2.17"
serde_json = "=1.0.154"
sha2 = "=0.10.9"
tokio = { version = "=1.54.1", features = ["macros", "rt", "sync", "time"] }
