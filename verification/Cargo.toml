[package]
name = "strung"
version = "0.1.0"
edition = "2021"
publish = false

[dependencies]
base64 = "0.22"
regex = "1"
object = "*"
clap = { version = "4", features = ["derive"] }
serde = { version = "1", features = ["derive"] }
toml = "*"
memmap2 = "0.9"
rayon = "1"
