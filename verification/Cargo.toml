[package]
name = "wash"
version = "0.1.0"
edition = "2021"
publish = false

[dependencies]
regex = "=1.13.1"
libc = "=0.2.191"
sodiumoxide = "=0.2.7"
