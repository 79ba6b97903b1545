[package]
name = "qop"
version = "0.1.0"
edition = "2021"
publish = false

[dependencies]
anyhow = "1"
chrono = { version = "0.4", features = ["serde"] }
hex = "0.4"
serde = { version = "1", features = ["derive"] }
sha2 = "0.10"
similar = "2"
tokio = { version = "1", features = ["macros", "rt"] }
toml = "0.8"
