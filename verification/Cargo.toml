[package]
name = "ccompiler"
version = "0.1.0"
edition = "2021"
publish = false

[dependencies]
unicode-width = "0.2"
clap = { version = "4", features = ["derive"] }
rayon = "1"
tempfile = "3"
