[package]
name = "utas"
version = "0.1.0"
edition = "2021"
publish = false

[dependencies]
anyhow = "1"
clap = { version = "4", features = ["derive"] }
configparser = { version = "3", features = ["indexmap"] }
indexmap = "2"
queues = "1"

[dev-dependencies]
regex = "1"
