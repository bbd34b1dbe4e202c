[package]
name = "react_labs"
version = "0.1.0"
edition = "2021"
publish = false

[dependencies]
clap = { version = "*", features = ["derive"] }
fs2 = "*"
itertools = "*"
rand = "*"
serde_json = "*"
walkdir = "*"
