[package]
name = "nsz_rs"
version = "0.1.0"
edition = "2021"
publish = false

[dependencies]
aes = "=0.9.3"
ctr = "=0.10.1"
sha2 = "=0.11.0"
zstd = { version = "=0.14.0", features = ["zstdmt"] }
