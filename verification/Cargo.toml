[package]
name = "clams_bin"
version = "0.1.0"
edition = "2021"
publish = false

[dependencies]
chrono = "0.4"
handlebars = "*"
serde = { version = "1", features = ["derive"] }
toml = "*"
walkdir = "*"
