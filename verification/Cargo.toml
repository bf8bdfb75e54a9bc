[package]
name = "bcoin_ledger"
version = "0.1.0"
edition = "2021"
publish = false

[dependencies]
tokio = { version = "=1.53.2", features = ["rt-multi-thread", "net", "time", "sync", "macros"] }
hyper = { version = "=1.11.1", features = ["http1", "server"] }
hyper-util = { version = "=0.1.21", features = ["tokio"] }
http-body-util = "=0.1.5"
clap = "=4.6.7"
reqwest = { version = "=0.13.5", default-features = false, features = ["query"] }
