[package]
name = "virtualdj_library"
version = "0.1.0"
edition = "2021"
publish = false

[dependencies]
quick-xml = { version = "0.38", features = ["serialize"] }
serde = { version = "1", features = ["derive"] }
