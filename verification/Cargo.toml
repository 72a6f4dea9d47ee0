[package]
name = "hl"
version = "0.1.0"
edition = "2021"
publish = false

[dependencies]
clap = "2.34"
crossterm = "0.25"
regex = "1"
