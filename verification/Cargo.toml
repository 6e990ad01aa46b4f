[package]
name = "worktree"
version = "0.1.0"
edition = "2021"
publish = false

[dependencies]
ignore = "*"
anyhow = "*"
crossbeam-channel = "*"
log = "*"
parking_lot = "*"
postage = "*"
smol = "*"
