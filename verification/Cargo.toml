[package]
name = "zorder"
version = "0.1.0"
edition = "2021"
publish = false

[dependencies]
num-traits = "0.2"
serde = "1"
minicbor = "*"

[dev-dependencies]
arbitrary = "1"
rand = "0.9"
