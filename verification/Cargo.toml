[package]
name = "burberry_template"
version = "0.1.0"
edition = "2021"
publish = false

[dependencies]
alloy = { version = "=1.8.3", default-features = false, features = ["std", "eips", "sol-types", "network", "providers", "provider-mev-api", "rpc-types-eth", "rpc-types-mev", "signer-local"] }
eyre = "=0.6.14"
futures = "=0.3.34"
serde = { version = "=1.0.229", features = ["derive"] }
serde_json = "=1.0.154"
tokio = { version = "=1.54.1", features = ["full"] }
tracing = "=0.1.44"
url = "=2.5.8"
