[package]
name = "uncbv"
version = "0.1.0"
edition = "2021"
publish = false

[dependencies]
des = "=0.0.4"
docopt = "=1.1.1"
encoding = "=0.2.33"
memmap = "=0.7.0"

[dev-dependencies]
huffman = "=0.0.3"
