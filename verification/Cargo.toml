[package]
name = "bitcask_core"
version = "0.1.0"
edition = "2021"
publish = false

[dependencies]
crc32fast = "1"
memmap2 = "0.9"
jammdb = "*"
parking_lot = "*"
