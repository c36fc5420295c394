[package]
name = "walker"
version = "0.1.0"
edition = "2021"
publish = false

[dependencies]
ethers-solc = { version = "=2.0.14", default-features = false }
eyre = "=0.6.14"
semver = "=1.0.28"
serde_json = "=1.0.154"
