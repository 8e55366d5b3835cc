[package]
name = "rusty_john"
version = "0.1.0"
edition = "2021"
publish = false

[dependencies]
dotenv = "0.15"
ethers = { version = "=2.0.14", default-features = false, features = ["abigen", "ws"] }
ethers-core = { version = "=2.0.14", default-features = false }
eyre = "=0.6.14"
futures = "=0.3.34"
itertools = "=0.10.5"
serde = { version = "=1.0.229", features = ["derive"] }
serde_json = "=1.0.154"
tokio = { version = "=1.54.1", features = ["macros", "rt-multi-thread"] }
uniswap_v3_math = "=0.4.1"
url = "=2.5.2"
