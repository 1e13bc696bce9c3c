[package]
name = "harper_core"
version = "0.1.0"
edition = "2021"
publish = false

[dependencies]
typst-syntax = "*"
serde = { version = "*", features = ["derive"] }
serde_json = "*"
