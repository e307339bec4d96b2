[package]
name = "rsm_raft"
version = "0.1.0"
edition = "2021"
publish = false

[dependencies]
crossbeam = "0.8"
rand = "0.7"
log = "0.4"
env_logger = "0.9"
