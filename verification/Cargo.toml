[package]
name = "bitcask"
version = "0.1.0"
edition = "2021"
publish = false

[dependencies]
byteorder = "1"
time = "0.1"
memcached-protocal = "*"
error-chain = "*"
