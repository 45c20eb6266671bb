[package]
name = "tourvia"
version = "0.1.0"
edition = "2021"
publish = false

[dependencies]
uuid = { version = "1", features = ["v4"] }
chrono = { version = "0.4", default-features = false, features = ["clock", "std"] }
rand = "0.8"
serde = { version = "1", features = ["derive"] }
serde_json = "1"
rusqlite = { version = "*", features = ["bundled"] }
eframe = { version = "*", default-features = false, features = ["default_fonts", "glow", "x11"] }
egui = { version = "*", default-features = false, features = ["default_fonts"] }
egui_extras = { version = "*", default-features = false, features = ["image"] }
image = { version = "*", default-features = false, features = ["png", "jpeg"] }
ab_glyph = "*"
reqwest = { version = "0.12", default-features = false, features = ["blocking", "rustls-tls"] }
regex = "1"
urlencoding = "2"
directories = "*"
env_logger = { version = "*", default-features = false }
rfd = { version = "*", default-features = false, features = ["gtk3"] }
