[package]
name = "true_engine"
version = "0.1.0"
edition = "2021"
publish = false

[dependencies]
three-d = { version = "0.18", features = ["egui-gui"] }
tokio = { version = "1", features = ["rt-multi-thread", "macros"] }
