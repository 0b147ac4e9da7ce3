[package]
name = "pollcore"
version = "0.1.0"
edition = "2021"
publish = false

[dependencies]
aes-gcm-siv = "*"
sha3 = "*"
rand = "*"
sqlite = "*"
toml = "*"
serde = { version = "*", features = ["derive"] }
chrono = "*"
