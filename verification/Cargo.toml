[package]
name = "chainsaw_engine"
version = "0.1.0"
edition = "2021"
publish = false

[dependencies]
chrono = "0.4"
csv = "1"
petgraph = "*"
serde = { version = "1", features = ["derive"] }
eframe = { version = "*", default-features = false, features = ["default_fonts", "glow", "x11"] }
egui = "*"
native-dialog = "*"
