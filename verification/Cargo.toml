[package]
name = "flac_chop_core"
version = "0.1.0"
edition = "2021"
publish = false

[dependencies]
claxon = "0.4"
