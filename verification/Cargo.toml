[package]
name = "wager_duel"
version = "0.1.0"
edition = "2021"
publish = false

[dependencies]
rand = "*"
mio = { version = "*", features = ["net", "os-poll"] }
