[package]
name = "tcfinder"
version = "0.1.0"
edition = "2021"
publish = false

[dependencies]
clap = { version = "4", features = ["derive"] }
csv = "1"
log = "0.4"
petgraph = "0.6"
serde = { version = "1", features = ["derive"] }
simplelog = "0.12"
