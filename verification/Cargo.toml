[package]
name = "proto_build"
version = "0.1.0"
edition = "2021"
publish = false

[dependencies]
regex = "*"
walkdir = "*"
log = "*"
env_logger = "*"
