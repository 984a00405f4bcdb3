[package]
name = "can_explorer"
version = "0.1.0"
edition = "2021"
publish = false

[dependencies]
anyhow = "1"
can-dbc = "=9.1.0"
can-hal-kvaser = "=0.4.3"
can-hal-pcan = "=0.4.3"
can-hal-rs = "=0.4.3"
chrono = "0.4"
crossbeam-channel = "0.5"
eframe = { version = "0.33", default-features = false, features = ["default_fonts", "glow", "x11"] }
egui = { version = "0.33", default-features = false, features = ["default_fonts"] }
egui_extras = { version = "0.33", default-features = false }
parking_lot = "0.12"
rfd = "0.15"
serialport = { version = "4", default-features = false }
socketcan = "=3.6.2"
