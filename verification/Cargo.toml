[package]
name = "wuffs_bench"
version = "0.1.0"
edition = "2021"
publish = false

[dependencies]
png = "=0.17.16"
weezl = "=0.2.1"
