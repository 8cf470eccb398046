[package]
name = "cachekv"
version = "0.1.0"
edition = "2021"
publish = false

[dependencies]
aes-gcm = "*"
rocksdb = "*"
chrono = "*"
uuid = "*"
