[package]
name = "otter_morph"
version = "0.1.0"
edition = "2021"
publish = false

[dependencies]
image = "=0.23.14"
csv = "=1.4.0"
clap = { version = "=4.6.7", features = ["derive"] }
indicatif = "=0.18.6"
moving-least-squares = "=0.1.0"
moving-least-squares-image = "=0.1.1"
opener = "=0.9.0"
