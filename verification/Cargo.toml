[package]
name = "petal"
version = "0.1.0"
edition = "2021"
publish = false

[dependencies]
smallvec = "=1.16.4"
serde = { version = "1", features = ["derive"] }
serde_json = "1"
