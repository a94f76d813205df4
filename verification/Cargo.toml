[package]
name = "doist"
version = "0.1.0"
edition = "2021"
publish = false

[dependencies]
chrono = { version = "0.4", features = ["serde"] }
clap = { version = "3", features = ["derive"] }
color-eyre = "0.6"
dialoguer = { version = "0.10", default-features = false, features = ["fuzzy-select"] }
num-traits = "0.2"
owo-colors = "3"
serde = { version = "1", features = ["derive"] }
serde_repr = "0.1"
strum = { version = "0.24", features = ["derive"] }
