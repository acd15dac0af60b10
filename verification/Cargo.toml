[package]
name = "ronin_app"
version = "0.1.0"
edition = "2021"
publish = false

[dependencies]
serde_json = "*"
ron = "*"
serde = { version = "*", features = ["derive"] }
egui = "*"
eframe = { version = "*", default-features = false, features = ["glow", "x11", "default_fonts"] }
atomicwrites = "*"
directories = "*"
tracing-appender = "*"
tracing-subscriber = { version = "*", features = ["env-filter"] }
