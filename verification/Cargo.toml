[package]
name = "talecast"
version = "0.1.0"
edition = "2021"
publish = false

[dependencies]
regex = "*"
clap = { version = "*", features = ["derive"] }
tokio = { version = "*", features = ["rt-multi-thread", "macros", "fs", "sync", "io-util", "time"] }
fern = "*"
chrono = "*"
log = "*"
