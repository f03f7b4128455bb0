[package]
name = "lazyfinder"
version = "0.1.0"
edition = "2021"
publish = false

[dependencies]
memchr = "2"
regex = "1"
colored = "*"
crossterm = "*"
ctrlc = "*"
ignore = "*"
memmap2 = "*"
pico-args = "*"
