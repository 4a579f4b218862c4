[package]
name = "animefs"
version = "0.1.0"
edition = "2021"
publish = false

[dependencies]
anyhow = "*"
brotli = "*"
flume = "*"
lz4_flex = "*"
seahash = "*"
siphasher = "*"
tinyrand = "*"
xxhash-rust = { version = "*", features = ["xxh3"] }
zstd = "*"
