[package]
name = "archi_kernel"
version = "0.1.0"
edition = "2021"
publish = false

[dependencies]
robust = "1"
serde = { version = "1", features = ["derive"] }
