[package]
name = "reddit_rs"
version = "0.1.0"
edition = "2021"
publish = false

[dependencies]
anyhow = "=1.0.104"
clap = { version = "=4.6.7", features = ["derive"] }
gjson = "=0.8.1"
indicatif = "=0.18.6"
petgraph = "=0.8.3"
rayon = "=1.12.0"
regex = "=1.13.1"
serde = { version = "=1.0.229", features = ["derive"] }
serde_json = "=1.0.154"
zstd = { version = "=0.14.3", features = ["zstdmt"] }
