[package]
name = "folio"
version = "0.1.0"
edition = "2021"
publish = false

[dependencies]
eth-encode-packed = "*"
clap = { version = "*", features = ["derive"] }
codemap = "*"
codemap-diagnostic = "*"
