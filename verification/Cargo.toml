[package]
name = "tracer_r"
version = "0.1.0"
edition = "2021"
publish = false

[dependencies]
partition = "0.1"
rand = "0.8"
rayon = "1"
image = { version = "0.24", default-features = false, features = ["png"] }
serde = { version = "1", features = ["derive"] }
