[package]
name = "ttare"
version = "0.1.0"
edition = "2021"
publish = false

[dependencies]
clap = { version = "4", features = ["derive"] }
color-eyre = "0.6"
flate2 = "1"
rayon = "1"
rustc-hash = "2"
tar = "0.4"
