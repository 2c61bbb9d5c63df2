[package]
name = "gitkview"
version = "0.1.0"
edition = "2021"
publish = false

[dependencies]
chrono = "0.4"
git2 = { version = "0.20", default-features = false }
gtk4 = "0.9"
