[package]
name = "fracbox"
version = "0.1.0"
edition = "2021"

[dependencies]
gcd = "*"
