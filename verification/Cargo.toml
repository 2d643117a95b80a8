[package]
name = "history_checker"
version = "0.1.0"
edition = "2021"
publish = false

[dependencies]
anyhow = "1"
clap = "2"
fs2 = "0.4"
libc = "0.2"
rand = "0.7"
rand_distr = "0.2"
serde = { version = "1", features = ["derive"] }
serde_json = "1"
sled = "0.34"
