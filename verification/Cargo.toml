[package]
name = "termbuffer"
version = "0.1.0"
edition = "2021"
publish = false

[dependencies]
unicode-segmentation = "1"
crossterm = "0.19"
clap = "2"
regex = "1"
lazy_static = "1"
bitflags = "1"
serde_json = "1"
