[package]
name = "bwt_mtf"
version = "0.1.0"
edition = "2021"
publish = false

[dependencies]
counting_sort = "*"
clap = { version = "4", features = ["derive"] }
dialoguer = "*"
huffman-encoding = "*"
rayon = "1"
serde = { version = "1", features = ["derive"] }
tempfile = "3"
