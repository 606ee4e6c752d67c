[package]
name = "wordle"
version = "0.1.0"
edition = "2021"
publish = false

[dependencies]
chrono = "0.4"
clap = { version = "3", features = ["derive"] }
hash_histogram = "*"
itertools = "0.10"
prettytable-rs = "*"
rayon = "1"
termcolor = "1"
tokio = { version = "1", features = ["rt-multi-thread", "macros"] }
