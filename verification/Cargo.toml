[package]
name = "dumpscan"
version = "0.1.0"
edition = "2021"
publish = false

[dependencies]
memchr = "2"
crossterm = "0.28"
ratatui = "0.29"
rand = "0.8"
