[package]
name = "membralysis"
version = "0.1.0"
edition = "2021"
publish = false

[dependencies]
anyhow = "*"
molar = "*"
serde = { version = "*", features = ["derive"] }
toml = "*"
