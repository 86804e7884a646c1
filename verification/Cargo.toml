[package]
name = "piper"
version = "0.1.0"
edition = "2021"
publish = false

[dependencies]
anyhow = "=1.0.104"
clap = "=3.2.25"
futures = "=0.3.34"
reqwest = { version = "=0.11.27", features = ["gzip", "native-tls"] }
smallvec = "=1.16.4"
tokio = { version = "=1.54.1", features = ["rt-multi-thread", "sync", "time"] }
