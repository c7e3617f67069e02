[package]
name = "lexgrow"
version = "0.1.0"
edition = "2021"
publish = false

[dependencies]
itertools = "*"
rayon = "*"
serde = { version = "*", features = ["derive"] }
serde_json = "*"
