[package]
name = "cybersentinel"
version = "0.1.0"
edition = "2021"
publish = false

[dependencies]
nfq = "*"
notify = "*"
rusqlite = "*"
serde_json = "1"
sha2 = "*"
thiserror = "*"
tracing = "0.1"
