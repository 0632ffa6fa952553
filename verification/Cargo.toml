[package]
name = "photonic_handlers"
version = "0.1.0"
edition = "2021"
publish = false

[dependencies]
regex = "1"
uuid = { version = "1", features = ["v4"] }
kurbo = "*"
glyphon = "*"
serde_json = "1"
tokio = { version = "1", features = ["sync", "time", "rt", "macros"] }
