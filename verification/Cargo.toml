[package]
name = "cfg_learn"
version = "0.1.0"
edition = "2021"
publish = false

[dependencies]
defaultmap = "*"
itertools = "*"
