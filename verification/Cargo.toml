[package]
name = "aoc_2024"
version = "0.1.0"
edition = "2021"
publish = false

[dependencies]
anyhow = "1"
chrono = "0.4"
peak_alloc = "*"
regex = "1"
