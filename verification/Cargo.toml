[package]
name = "korchevatel"
version = "0.1.0"
edition = "2021"
publish = false

[dependencies]
anyhow = "1"
bevy = { version = "=0.17.3", default-features = false }
humantime-serde = "1"
rand = "0.9"
rand_distr = "0.5"
regex = "1"
serde = { version = "1", features = ["derive"] }
serde_json = "1"
