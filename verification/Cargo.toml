[package]
name = "kvsys"
version = "0.1.0"
edition = "2021"
publish = false

[dependencies]
rand = "*"
clap = "*"
env_logger = "*"
log = "*"
