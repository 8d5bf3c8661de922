[package]
name = "ddup"
version = "0.1.0"
edition = "2021"
publish = false

[dependencies]
crc = "*"
glob = "*"
clap = "*"
env_logger = "*"
log = "*"
rayon = "*"
indicatif = "*"
