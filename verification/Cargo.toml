[package]
name = "tuc"
version = "0.1.0"
edition = "2021"
publish = false

[dependencies]
anyhow = "1"
bstr = "1"
memchr = "2"
memmap2 = "0.9"
pico-args = "0.5"
regex = "1"
serde_json = "1"
