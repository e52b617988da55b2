[package]
name = "pagematch"
version = "0.1.0"
edition = "2021"
publish = false

[dependencies]
bktree = "*"
img_hash = "3"
image = "0.23"
rayon = "1"
eyre = "0.6"
structopt = "0.3"
