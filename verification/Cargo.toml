[package]
name = "mcserv"
version = "0.1.0"
edition = "2021"
publish = false

[dependencies]
serde_json = "1"
fastnbt = "2"
flate2 = "1"
log = "0.4"
env_logger = "*"
polling = "2"
