[package]
name = "ctex"
version = "0.1.0"
edition = "2021"
publish = false

[dependencies]
lz4_flex = "*"
lz4 = "*"
num-integer = "*"
flate2 = "*"
image = { version = "*", default-features = false, features = ["png"] }
anyhow = "*"
glob = "*"
rayon = "*"
