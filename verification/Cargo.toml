[package]
name = "city_spellcheck"
version = "0.1.0"
edition = "2021"
publish = false

[dependencies]
distance = "*"
rayon = "1"
serde = { version = "1", features = ["derive"] }
rocket = { version = "0.5", features = ["json"] }
