[package]
name = "autorenamer"
version = "1.0.3"
edition = "2021"
publish = false

[dependencies]
clap = { version = "4", features = ["derive"] }
dirs = "5"
notify-rust = "4"
regex = "1"

[dev-dependencies]
nom = "7"
