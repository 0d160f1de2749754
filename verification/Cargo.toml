[package]
name = "speaking_order"
version = "0.1.0"
edition = "2021"
publish = false

[dependencies]
build_html = "2"
chrono = "0.4"
debug_panic = "*"
lazy_static = "1"
rocket = "0.5"
serde = { version = "1", features = ["derive"] }
serde_json = "1"
