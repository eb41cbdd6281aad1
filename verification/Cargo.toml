[package]
name = "perpdex"
version = "0.1.0"
edition = "2021"
publish = false

[dependencies]
serde = { version = "1", features = ["derive"] }
bcs = "0.1"
bytes = "1"
