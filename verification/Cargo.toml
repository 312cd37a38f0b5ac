[package]
name = "sube"
version = "0.1.0"
edition = "2021"
publish = false

[dependencies]
twox-hash = "1"
blake2 = "0.10"
hex = "0.4"
once_cell = "1"
async-trait = "0.1"
frame-metadata = "*"
parity-scale-codec = "3"
scale-info = "2"
