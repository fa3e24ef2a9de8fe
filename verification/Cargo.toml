[package]
name = "consensus_lab"
version = "0.1.0"
edition = "2021"
publish = false

[dependencies]
blake3 = "1"
parity-scale-codec = "3"
rand = "0.8"
rand_chacha = "0.3"
log = "0.4"
env_logger = "0.11"
