[package]
name = "dht_gossip"
version = "0.1.0"
edition = "2021"
publish = false

[dependencies]
kitsune_p2p_timestamp = { version = "=0.4.4", default-features = false }
rand = "=0.8.8"
serde = { version = "=1.0.228", features = ["derive"] }
futures = "=0.3.34"
tokio = { version = "=1.54.1", features = ["rt"] }
holo_hash = "=0.7.1"
holochain_serialized_bytes = "=0.0.57"
