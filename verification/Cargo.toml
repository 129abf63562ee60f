[package]
name = "wrk"
version = "0.1.0"
edition = "2021"
publish = false

[dependencies]
anyhow = "1"
chrono = "0.4"
clap = { version = "4", features = ["derive"] }
dirs = "*"
emojis = "*"
regex = "1"
rustyline = "*"
serde = { version = "1", features = ["derive"] }
shlex = "1"
toml = "*"
walkdir = "2"

[dev-dependencies]
tempfile = "3"
