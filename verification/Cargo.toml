[package]
name = "mmdu"
version = "0.1.0"
edition = "2021"
publish = false

[dependencies]
anyhow = "*"
bstr = "*"
bytesize = "*"
clap = "*"
env_logger = "*"
libc = "*"
log = "*"
tempfile = "*"
