[package]
name = "pdf_join"
version = "0.1.0"
edition = "2021"
publish = false

[dependencies]
clap = { version = "4", features = ["derive"] }
colored = "2"
itertools = "0.12"
lopdf = "0.32"
