[package]
name = "mix"
version = "0.1.0"
edition = "2021"
publish = false

[dependencies]
annotate-snippets = "0.12"
clap = { version = "4", features = ["derive"] }
rustc-hash = "2"
