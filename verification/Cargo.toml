[package]
name = "jiji"
version = "0.1.0"
edition = "2021"
publish = false

[dependencies]
chrono = { version = "=0.4.45", default-features = false, features = ["std", "clock"] }
serde = { version = "=1.0.229", features = ["derive"] }
serde_json = "=1.0.154"
notify-rust = { version = "=4.18.2", default-features = false, features = ["z"] }
image = { version = "=0.24.9", default-features = false, features = ["png"] }
tokio = { version = "=1.54.1", features = ["rt-multi-thread", "time"] }
eframe = { version = "=0.24.1", default-features = false, features = ["default_fonts", "glow", "x11"] }
