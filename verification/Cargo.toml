[package]
name = "hamcycle"
version = "0.1.0"
edition = "2021"
publish = false

[dependencies]
chrono = "0.4"
csv = "1"
itertools = "0.10"
ndarray = "0.15"
rayon = "1"
serde = { version = "1", features = ["derive"] }
