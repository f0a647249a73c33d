[package]
name = "tichu"
version = "0.1.0"
edition = "2021"
publish = false

[dependencies]
bufstream = "0.1"
clap = "2"
log = "0.4"
rand = "0.8"
simplelog = "0.8"

[dev-dependencies]
itertools = "0.10"
