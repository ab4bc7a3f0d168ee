[package]
name = "portprobe"
version = "0.1.0"
edition = "2021"
publish = false

[dependencies]
anyhow = "*"
atty = "0.2"
clap = { version = "*", features = ["derive"] }
futures = "*"
tokio = { version = "*", features = ["rt-multi-thread", "macros", "net", "time", "process"] }
