[package]
name = "react"
version = "0.1.0"
edition = "2021"
publish = false

[dependencies]
bincode = "1"
chrono = "0.4"
clap = { version = "4", features = ["derive"] }
fcntl = "*"
itertools = "*"
rand = "0.8"
serde = { version = "1", features = ["derive"] }
