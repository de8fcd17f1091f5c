[package]
name = "nodice"
version = "0.1.0"
edition = "2021"
publish = false

[dependencies]
rand = "0.9"
clap = { version = "4", features = ["derive"] }
thiserror = "2"

[dev-dependencies]
nom = "8"
nom-language = "0.1"
