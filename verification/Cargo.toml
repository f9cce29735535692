[package]
name = "simkernel"
version = "0.1.0"
edition = "2021"

[dependencies]
env_logger = "*"
smoltcp = "*"
