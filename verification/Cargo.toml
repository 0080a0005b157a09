[package]
name = "structurer"
version = "0.1.0"
edition = "2021"
publish = false

[dependencies]
chrono = { version = "0.4", default-features = false, features = ["std"] }
uuid = { version = "1", features = ["v4"] }
serde = { version = "1", features = ["derive"] }
serde_json = "1"
dirs = "5"
rand = "0.8"
env_logger = { version = "0.11", default-features = false }
egui = "0.29"
egui_extras = { version = "0.29", default-features = false }
egui_dnd = "0.10"
