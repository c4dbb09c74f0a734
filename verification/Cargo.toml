[package]
name = "nintendo_sarc"
version = "0.1.0"
edition = "2021"
publish = false

[dependencies]
clap = "*"
itertools = "*"
walkdir = "*"
zip = { version = "*", default-features = false }
