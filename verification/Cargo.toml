[package]
name = "neural_network_lib"
version = "0.1.0"
edition = "2021"
publish = false

[dependencies]
chrono = "0.4"
image = { version = "0.25", default-features = false, features = ["png"] }
rand = "0.8"
rocket = { version = "0.5", features = ["json"] }
