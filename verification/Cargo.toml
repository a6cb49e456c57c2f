[package]
name = "kaspa_client"
version = "0.1.0"
edition = "2021"
publish = false

[dependencies]
sha2 = "0.10"
ripemd = "0.1"
bs58 = "0.5"
bech32 = "0.9"
hex = "0.4"
seahash = "4"
secp256k1 = { version = "0.27", features = ["rand-std"] }
serde = { version = "1", features = ["derive"] }
serde_json = "1"
reqwest = { version = "0.11", default-features = false, features = ["json", "rustls-tls"] }
tokio = { version = "1", features = ["full"] }
tokio-tungstenite = "0.20"
futures-util = { version = "0.3", features = ["sink"] }
