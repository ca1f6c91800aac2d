[package]
name = "ramp64_convert_gui"
version = "0.1.0"
edition = "2021"
publish = false

[dependencies]
eframe = { version = "=0.22.0", default-features = false, features = ["glow", "default_fonts"] }
egui = { version = "=0.22.0", default-features = false }
rfd = { version = "=0.17.2", default-features = false, features = ["xdg-portal"] }
open = "=5.4.4"
ramp64-srm-convert-lib = "=0.5.0"
