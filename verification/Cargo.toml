[package]
name = "graph_script"
version = "0.1.0"
edition = "2021"
publish = false

[dependencies]
bevy = { version = "=0.14.2", default-features = false, features = ["x11"] }
bevy_egui = { version = "=0.29.0", default-features = false, features = ["default_fonts"] }
bevy-inspector-egui = { version = "=0.25.2", default-features = false }
egui-snarl = "=0.4.4"
serde = { version = "=1.0.229", features = ["derive"] }
serde_json = "=1.0.154"
