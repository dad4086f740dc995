[package]
name = "piecewise_linear"
version = "0.1.0"
edition = "2021"
publish = false

[dependencies]
geo = "*"
serde = { version = "*", features = ["derive"] }
