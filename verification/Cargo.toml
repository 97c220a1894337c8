[package]
name = "concurrency"
version = "0.1.0"
edition = "2021"
publish = false

[dependencies]
futures = "0.3"
nix = "0.23"
rand = "0.8"
session_types = "0.3"
signal-hook = "0.1"
tokio = { version = "1", features = ["rt-multi-thread", "macros", "sync", "time", "net", "io-util"] }
