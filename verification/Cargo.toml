[package]
name = "rendezvous_server"
version = "0.1.0"
edition = "2021"
publish = false

[dependencies]
anyhow = "*"
atty = "*"
futures = "*"
libp2p = { version = "*", features = ["tcp", "dns", "websocket", "noise", "yamux", "ping", "rendezvous", "macros", "tokio", "ed25519"] }
structopt = "*"
tokio = { version = "*", features = ["full"] }
tracing = "*"
tracing-subscriber = { version = "*", features = ["env-filter", "json"] }
