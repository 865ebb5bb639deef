[package]
name = "pass_age"
version = "0.1.0"
edition = "2021"
publish = false

[dependencies]
anyhow = "1"
chrono = "0.4"
chrono-humanize = "0.2"
clap = { version = "4", features = ["derive"] }
clio = "*"
glob = "0.3"
humantime = "2"
