[package]
name = "persisted_dht"
version = "0.1.0"
edition = "2021"
publish = false

[dependencies]
alloy-rlp = "*"
enr = "*"
