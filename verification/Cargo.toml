[package]
name = "kdnlp"
version = "0.1.0"
edition = "2021"
publish = false

[dependencies]
iced = { version = "0.14", features = ["advanced", "canvas"] }
ort = { version = "2.0.0-rc.15", default-features = false, features = ["std", "load-dynamic"] }
serde = { version = "1", features = ["derive"] }
serde_json = "1"
