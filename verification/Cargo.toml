[package]
name = "sharecart1000"
version = "0.1.0"
edition = "2021"
publish = false

[dependencies]
rust-ini = "*"
