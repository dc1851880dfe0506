[package]
name = "bootupd"
version = "0.1.0"
edition = "2021"
publish = false

[dependencies]
anyhow = "1"
fs2 = "0.4"
openat = "*"
openat-ext = "*"
serde = { version = "1", features = ["derive"] }
serde_json = "1"
