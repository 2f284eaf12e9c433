[package]
name = "wordfreq"
version = "0.1.0"
edition = "2021"
publish = false

[dependencies]
num_cpus = "*"
tokio = { version = "*", features = ["rt-multi-thread", "macros", "sync", "fs", "io-util"] }
