[package]
name = "rsterminal"
version = "0.1.0"
edition = "2021"
publish = false

[dependencies]
unicode-width = "*"
uuid = { version = "1", features = ["v4"] }
sys-locale = "*"
directories = "*"
serde = { version = "1", features = ["derive"] }
serde_json = "1"
egui = "*"
eframe = { version = "*", default-features = false, features = ["glow", "x11", "default_fonts"] }
libc = "0.2"
portable-pty = "*"
serialport = { version = "4", default-features = false }
log = "0.4"
