[package]
name = "defttorrent"
version = "0.1.0"
edition = "2021"
publish = false

[dependencies]
sha1 = "*"
rand = "*"
tokio = { version = "*", features = ["net", "time", "rt", "rt-multi-thread", "macros"] }
