[package]
name = "cubes"
version = "0.1.0"
edition = "2021"
publish = false

[dependencies]
bincode = "1.3"
clap = { version = "4", features = ["derive"] }
ndarray = { version = "0.15", features = ["serde"] }
