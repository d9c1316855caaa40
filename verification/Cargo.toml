[package]
name = "rcss"
version = "0.1.1"
edition = "2021"
publish = false

[dependencies]
pest = "*"
pest_derive = "*"
clap = { version = "*", features = ["derive"] }
notify = "*"
colored = "*"
chrono = "*"
