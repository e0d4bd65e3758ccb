[package]
name = "gfa_injection"
version = "0.1.0"
edition = "2021"
publish = false

[dependencies]
roaring = "*"
noodles = { version = "*", features = ["bam", "sam"] }
pico-args = "*"
anyhow = "*"
