[package]
name = "qcd"
version = "0.1.0"
edition = "2021"
publish = false

[dependencies]
camino = "*"
chrono = "*"
clap = { version = "*", features = ["derive"] }
path-absolutize = "*"
rusqlite = { version = "*", features = ["bundled"] }
simple-home-dir = "*"
