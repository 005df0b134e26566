[package]
name = "pathmap"
version = "0.3.0"
edition = "2021"
publish = false

[dependencies]
fast-slice-utils = "=0.1.2"
memmap2 = "=0.9.12"
