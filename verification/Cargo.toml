[package]
name = "remote_fs"
version = "0.1.0"
edition = "2021"
publish = false

[dependencies]
anyhow = "=1.0.104"
fuser = { version = "=0.14.0", default-features = false }
libc = "=0.2.190"
reqwest = { version = "=0.11.27", default-features = false, features = ["blocking", "json"] }
serde = { version = "=1.0.229", features = ["derive"] }
serde_json = "=1.0.151"
