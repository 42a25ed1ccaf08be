[package]
name = "dupfind"
version = "0.1.0"
edition = "2021"
publish = false

[dependencies]
seahash = "4"
clap = { version = "4", features = ["cargo"] }
eyre = "0.6"
futures = "0.3"
tokio = { version = "1", features = ["fs", "sync", "rt-multi-thread", "macros"] }
