[package]
name = "fraud_index"
version = "0.1.0"
edition = "2021"
publish = false

[dependencies]
flate2 = "1"
libc = "0.2"
memmap2 = "0.9"
rayon = "1"
