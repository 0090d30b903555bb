[package]
name = "veryl_simulator"
version = "0.1.0"
edition = "2021"
publish = false

[dependencies]
veryl-parser = "*"
veryl-analyzer = "*"
veryl-metadata = "*"
