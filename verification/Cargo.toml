[package]
name = "viguno"
version = "0.1.0"
edition = "2021"
publish = false

[dependencies]
anyhow = "*"
clap = { version = "*", features = ["derive"] }
fastobo = "*"
hpo = "*"
serde = { version = "*", features = ["derive"] }
