[package]
name = "bt_visualizer"
version = "0.1.0"
edition = "2021"
publish = false

[dependencies]
bincode-next = { version = "=3.1.1", features = ["serde"] }
chrono = { version = "=0.4.45", features = ["serde"] }
eframe = { version = "=0.34.3", default-features = false, features = ["default_fonts", "glow", "x11"] }
egui = "=0.34.3"
egui_extras = "=0.34.3"
egui-phosphor = "=0.12.0"
egui-toast = "=0.20.0"
env_logger = "=0.11.11"
serde = { version = "=1.0.229", features = ["derive"] }
zmq = "=0.10.0"
