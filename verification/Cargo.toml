[package]
name = "calendar_puzzle"
version = "0.1.0"
edition = "2021"

[dependencies]
anyhow = "1"
getopts = "0.2"
