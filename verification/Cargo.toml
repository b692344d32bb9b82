[package]
name = "yp"
version = "0.2.2"
edition = "2021"
publish = false

[dependencies]
clap = "4"
colored = "2"
rayon = "1"
serde = { version = "1", features = ["derive"] }
serde_json = "1"
terminal_size = "*"
unicode-width = "*"
