[package]
name = "logkv"
version = "0.1.0"
edition = "2021"
publish = false

[dependencies]
strsim = "=0.11.1"
rocket = { version = "0.5", default-features = false, features = ["json"] }
reqwest = { version = "=0.9.24", default-features = false }
serde = "=1.0.229"
serde_derive = "=1.0.229"
serde_json = "=1.0.154"
log = "=0.4.34"
