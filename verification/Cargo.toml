[package]
name = "lumpi"
version = "0.1.0"
edition = "2021"
publish = false

[dependencies]
memchr = "2"
sha2 = "0.10"
hex = "0.4"
rustc-hash = "2"
zstd = { version = "0.13", features = ["zstdmt"] }
clap = { version = "4", features = ["derive"] }
flate2 = "1"
brotli = "*"
