[package]
name = "bip110_packer"
version = "0.1.0"
edition = "2021"
publish = false

[dependencies]
anyhow = "1"
bitcoin = "0.32"
clap = { version = "4", features = ["derive"] }
hex = "0.4"
miniz_oxide = "0.8"
