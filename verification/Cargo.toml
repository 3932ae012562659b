[package]
name = "vibepanel"
version = "0.1.0"
edition = "2021"
publish = false

[dependencies]
chrono = "0.4"
serde = { version = "1", features = ["derive"] }
serde_json = "1"
libc = "0.2"
tracing = "0.1"
gtk4 = { version = "*", features = ["v4_10"] }
image = "*"
