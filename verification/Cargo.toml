[package]
name = "post2html"
version = "0.1.0"
edition = "2021"
publish = false

[dependencies]
clap = { version = "=4.6.7", features = ["derive"] }
comrak = { version = "=0.45.0", default-features = false }
regex = "=1.13.1"
serde = { version = "=1.0.229", features = ["derive"] }
serde_json = "=1.0.154"
syntect = { version = "=5.3.0", default-features = false, features = ["default-fancy"] }
tera = "=1.20.1"
