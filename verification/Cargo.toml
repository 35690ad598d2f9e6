[package]
name = "pm4wasm"
version = "0.1.0"
edition = "2021"
publish = false

[dependencies]
chrono = "0.4"
quick-xml = "0.36"
serde = { version = "1", features = ["derive"] }
serde_json = "1"
