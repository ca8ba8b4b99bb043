[package]
name = "flat_hypercube"
version = "0.1.0"
edition = "2021"
publish = false

[dependencies]
crossterm = "*"
itertools = "*"
rand = "0.8"
rgb2ansi256 = "*"
serde = { version = "1", features = ["derive"] }
serde_json = "1"
