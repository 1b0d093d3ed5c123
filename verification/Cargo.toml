[package]
name = "crc_check"
version = "0.1.0"
edition = "2021"
publish = false

[dependencies]
crc32fast = "=1.5.2"
memmap2 = "=0.9.11"
oneshot = { version = "=0.2.1", features = ["std"] }
rayon = "=1.12.0"
