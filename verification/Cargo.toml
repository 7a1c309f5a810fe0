[package]
name = "flp_math"
version = "0.1.0"
edition = "2021"
publish = false

[dependencies]
serde = { version = "1", features = ["derive"] }
num-traits = "0.2"
