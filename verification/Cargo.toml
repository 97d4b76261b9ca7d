[package]
name = "mvitop"
version = "0.1.0"
edition = "2021"
publish = false

[dependencies]
anyhow = "1"
arc-swap = "1"
crossterm = "0.28"
libc = "0.2"
ratatui = "0.29"
signal-hook = "0.3"
xml-rs = "0.8"
