[package]
name = "my_git"
version = "0.1.0"
edition = "2021"
publish = false

[dependencies]
anyhow = "1"
bytes = "1"
clap = { version = "4", features = ["derive"] }
flate2 = "1"
hex = "0.4"
regex = "1"
reqwest = { version = "0.12", default-features = false }
sha1 = "0.10"
tokio = { version = "1", features = ["rt-multi-thread", "macros"] }
