[package]
name = "wbcache"
version = "0.1.0"
edition = "2021"
publish = false

[dependencies]
compacts = "*"
parking_lot = "*"
rocksdb = "*"
