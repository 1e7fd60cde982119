[package]
name = "rgx"
version = "0.2.0"
edition = "2021"
publish = false

[dependencies]
ignore = "0.4"
memmap2 = "0.9"
regex = "1"
regex-syntax = "0.8"
