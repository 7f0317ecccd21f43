[package]
name = "minikv"
version = "0.1.0"
edition = "2021"
publish = false

[dependencies]
sha1 = "0.10"
hex = "0.4"
rand = "0.8"
regex = "1"
clap = { version = "4", features = ["derive"] }
