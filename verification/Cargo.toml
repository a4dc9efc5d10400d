[package]
name = "udp2p"
version = "0.1.0"
edition = "2021"
publish = false

[dependencies]
hex = "0.4"
rand = "0.8"
raptorq = "1"
ritelinked = "0.3"
serde = { version = "1", features = ["derive"] }
serde_json = "1"
sha256 = "1"
