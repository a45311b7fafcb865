[package]
name = "unlinked"
version = "0.1.0"
edition = "2021"
publish = false

[dependencies]
aho-corasick = "0.7"
anyhow = "1"
async-std = { version = "1", features = ["attributes"] }
colored = "2"
futures = "0.3"
rayon = "1"
structopt = "0.3"
walkdir = "2"
