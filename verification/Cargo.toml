[package]
name = "mempool_history"
version = "0.1.0"
edition = "2021"
publish = false

[dependencies]
clap = { version = "4", default-features = false, features = ["std", "derive", "help"] }
ethers = { version = "2", default-features = false, features = ["ws"] }
futures-core = "0.3"
tokio = { version = "1", default-features = false, features = ["rt-multi-thread", "macros"] }
tracing = "0.1"
tracing-subscriber = { version = "0.3", default-features = false, features = ["fmt", "registry"] }
