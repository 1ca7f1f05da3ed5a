[package]
name = "wave_function_collapse"
version = "0.1.0"
edition = "2021"
publish = false

[dependencies]
rand = "0.8"
itertools = "0.10"
macroquad = "0.3"
serde = { version = "1", features = ["derive"] }
serde_yaml = "0.9"
futures = "0.3"
