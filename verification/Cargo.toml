[package]
name = "blackjack_q"
version = "0.1.0"
edition = "2021"
publish = false

[dependencies]
dashmap = "*"
rand = "0.8"
serde_json = "*"
