[package]
name = "peridot_archive"
version = "0.1.0"
edition = "2021"
publish = false

[dependencies]
crc = "*"
libflate = "*"
lz4 = "*"
zstd = "*"
