[package]
name = "kradical"
version = "0.1.0"
edition = "2021"
publish = false

[dependencies]
encoding = "=0.2.33"
kradical_jis = "=0.1.0"
unicode-segmentation = "*"
clap = { version = "*", features = ["derive"] }
