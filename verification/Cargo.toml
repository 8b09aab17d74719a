[package]
name = "ethclient"
version = "0.1.0"
edition = "2021"
publish = false

[dependencies]
alloy = { version = "=2.5.0", default-features = false, features = ["std", "provider-http", "reqwest", "signer-local", "network", "rpc-types", "contract"] }
tokio = { version = "=1.53.2", features = ["macros", "rt-multi-thread", "time"] }
dotenv = "=0.15.0"
