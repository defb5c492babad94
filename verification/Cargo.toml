[package]
name = "emosaic"
version = "0.1.0"
edition = "2021"
publish = false

[dependencies]
bincode = "1"
clap = { version = "3.2", features = ["derive"] }
image = "0.22"
kd-tree = "*"
rand = "0.7"
serde = { version = "1", features = ["derive"] }
typenum = "1"
