[package]
name = "mmapzstd"
version = "0.2.0"
edition = "2021"
publish = false

[dependencies]
clap = { version = "=4.6.7", features = ["derive"] }
libc = "=0.2.191"
memmap2 = "=0.9.12"
zstd = "=0.13.4"
