[package]
name = "media_lock_core"
version = "0.1.0"
edition = "2021"
publish = false

[dependencies]
aes = "0.8"
ctr = "0.9"
argon2 = "0.5"
rand = "0.8"
crc32fast = "1"
serde = { version = "1", features = ["derive"] }
serde_json = "1"
uuid = { version = "1", features = ["v4"] }
clap = { version = "4", features = ["derive"] }
indicatif = "0.17"
rpassword = "7"
walkdir = "2"
tracing-subscriber = "0.3"
thiserror = "1"

[dev-dependencies]
tempfile = "3"
