[package]
name = "daily_puzzles"
version = "0.1.0"
edition = "2021"
publish = false

[dependencies]
lru = "*"
regex = "1"
itertools = "*"
image = { version = "*", default-features = false, features = ["png"] }
