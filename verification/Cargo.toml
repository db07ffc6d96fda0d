[package]
name = "fuzzy_rename"
version = "0.1.0"
edition = "2021"
publish = false

[dependencies]
strsim = "0.10"
serde = { version = "1", features = ["derive"] }
eframe = { version = "0.24", default-features = false, features = ["glow", "persistence", "default_fonts"] }
egui = "0.24"
egui_extras = "0.24"
rfd = { version = "0.12", default-features = false, features = ["xdg-portal"] }
