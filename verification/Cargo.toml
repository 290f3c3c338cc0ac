[package]
name = "treestate"
version = "0.1.0"
edition = "2021"
publish = false

[dependencies]
sha2 = "*"
anyhow = "*"
clap = "*"
crossbeam-channel = "*"
ignore = "*"
rayon = "*"
