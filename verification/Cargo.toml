[package]
name = "flexaccess_keys"
version = "0.1.0"
edition = "2021"
publish = false

[dependencies]
base64 = "0.22"
ed25519-dalek = "2"
getrandom = "0.3"
clap = { version = "4", features = ["derive"] }
serde_json = "1"
