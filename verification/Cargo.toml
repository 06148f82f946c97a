[package]
name = "tagbam"
version = "0.1.0"
edition = "2021"
publish = false

[dependencies]
rust-htslib = { version = "=0.45.0", default-features = false }
hts-sys = { version = "=2.1.1", default-features = false }
libz-sys = { version = "=1.1.29", default-features = false, features = ["libc", "stock-zlib", "static"] }
clap = { version = "=4.6.7", features = ["derive"] }
anyhow = "=1.0.104"
