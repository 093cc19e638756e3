[package]
name = "duplis"
version = "0.1.0"
edition = "2021"
publish = false

[dependencies]
xxhash-rust = { version = "=0.8.19", features = ["xxh3"] }
clap = "=4.6.7"
flume = "=0.12.0"
log = { version = "=0.4.34", features = ["std"] }
