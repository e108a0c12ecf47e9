[package]
name = "xournalr"
version = "0.1.0"
edition = "2021"
publish = false

[dependencies]
rstar = "*"
aatree = "*"
ring-channel = "*"
