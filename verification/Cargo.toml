[package]
name = "statix"
version = "0.1.0"
edition = "2021"
publish = false

[dependencies]
rnix = "=0.10.2"
clap = { version = "=4.6.7", features = ["derive"] }
similar = "=2.7.0"

[dev-dependencies]
rowan = "=0.12.6"
