[package]
name = "thoughtgraph"
version = "0.1.0"
edition = "2021"
publish = false

[dependencies]
anyhow = "*"
bincode = "1"
chrono = { version = "*", features = ["serde"] }
clap = { version = "4", features = ["derive"] }
colored = "*"
console = "*"
dialoguer = { version = "*", features = ["fuzzy-select"] }
dirs = "*"
indicatif = "*"
serde = { version = "*", features = ["derive"] }
tempfile = "*"
thiserror = "*"
