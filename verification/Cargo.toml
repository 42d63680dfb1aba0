[package]
name = "rtt_debug_tool"
version = "0.1.0"
edition = "2021"
publish = false

[dependencies]
heapless = "=0.8.0"
critical-section = { version = "1", features = ["std"] }
anyhow = "1"
clap = { version = "4", features = ["derive"] }
serialport = { version = "4", default-features = false }
egui = { version = "0.29", default-features = false, features = ["default_fonts"] }
eframe = { version = "0.29", default-features = false, features = ["glow", "default_fonts", "x11"] }
