[package]
name = "cvv"
version = "0.1.0"
edition = "2021"
publish = false

[dependencies]
clap = { version = "4", features = ["derive"] }
ctrlc = "3"
filetime = "0.2"
indicatif = "0.17"
libc = "0.2"
xxhash-rust = { version = "0.8", features = ["xxh3"] }
