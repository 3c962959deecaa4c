[package]
name = "jjf"
version = "0.2.0"
edition = "2021"
publish = false

[dependencies]
anyhow = "1"
crossterm = "0.29"
libc = "0.2"
nucleo-matcher = "0.3"
