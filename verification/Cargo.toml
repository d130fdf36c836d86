[package]
name = "linux_system_monitor"
version = "0.1.0"
edition = "2021"
publish = false

[dependencies]
sysinfo = "0.37.2"
postgres = "0.19"
eframe = { version = "0.32.3", default-features = false, features = ["glow", "x11", "default_fonts"] }
egui_plot = "0.33.0"
