[package]
name = "insensitive"
version = "0.1.0"
edition = "2021"
publish = false

[dependencies]
smallvec = { version = "=1.16.4", features = ["union"] }
serde = { version = "=1.0.229", features = ["derive"] }
