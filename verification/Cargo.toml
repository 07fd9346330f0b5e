[package]
name = "hic_resolution"
version = "0.1.0"
edition = "2021"
publish = false

[dependencies]
rayon = "*"
rustc-hash = "*"
anyhow = "*"
clap = { version = "*", features = ["derive"] }
flate2 = "*"
indicatif = "*"
