[package]
name = "tartine"
version = "0.1.0"
edition = "2021"
publish = false

[dependencies]
redb = "*"
fuser = { version = "*", default-features = false }
libc = "0.2"
