[package]
name = "spacemaxxer"
version = "0.1.0"
edition = "2021"
publish = false

[dependencies]
bincode = "1"
clap = { version = "4", features = ["derive"] }
rayon = "1"
rfd = "0.15"
serde = { version = "1", features = ["derive"] }
serde_json = "1"
