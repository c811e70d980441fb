[package]
name = "namegen"
version = "0.1.0"
edition = "2021"
publish = false

[dependencies]
rand = "0.8"
serde_json = "1"
clap = { version = "4", features = ["derive"] }
indicatif = "0.17"
