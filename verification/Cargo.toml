[package]
name = "n2"
version = "0.1.0"
edition = "2021"
publish = false

[dependencies]
anyhow = "1"
getopts = "0.2"
libc = "0.2"
