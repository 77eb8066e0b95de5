[package]
name = "discord_interactions"
version = "0.1.0"
edition = "2021"
publish = false

[dependencies]
ed25519-dalek = "=2.2.0"
serde = "=1.0.229"
serde_json = "=1.0.151"
twilight-model = "=0.17.1"
reqwest = { version = "=0.13.5", default-features = false, features = ["blocking", "multipart"] }

[dev-dependencies]
hex = "=0.4.3"
percent-encoding = "=2.3.2"
