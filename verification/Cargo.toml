[package]
name = "algo_caster"
version = "0.1.0"
edition = "2021"
publish = false

[dependencies]
serde = { version = "1", features = ["derive"] }
serde_json = "1"
egui = { version = "0.27", default-features = false, features = ["default_fonts"] }
egui_plot = { version = "0.27", default-features = false }
