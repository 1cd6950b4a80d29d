[package]
name = "arbitrage_bot"
version = "0.1.0"
edition = "2021"
publish = false

[dependencies]
anyhow = "=1.0.104"
chrono = { version = "=0.4.45", default-features = false, features = ["clock"] }
ethers-contract = { version = "=2.0.14", features = ["abigen"] }
ethers-core = "=2.0.14"
ethers-providers = "=2.0.14"
tokio = { version = "1", features = ["macros", "rt-multi-thread", "time"] }
