[package]
name = "rsync"
version = "0.1.0"
edition = "2021"
publish = false

[dependencies]
blake3 = "1"
memmap2 = "0.9"
walkdir = "2"
