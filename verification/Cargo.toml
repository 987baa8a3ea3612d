[package]
name = "img_tournament"
version = "0.1.0"
edition = "2021"
publish = false

[dependencies]
gtk4 = { version = "0.8", features = ["v4_10"] }
chrono = "0.4"
serde = { version = "1", features = ["derive"] }
once_cell = "1"
