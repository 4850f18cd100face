[package]
name = "go_game"
version = "0.1.0"
edition = "2021"

[dependencies]
rand = "0.9"
regex = "1"
