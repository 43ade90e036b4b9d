[package]
name = "mcts"
version = "0.1.0"
edition = "2021"
publish = false

[dependencies]
rand = "0.8"
rand_pcg = "0.3"
petgraph = "0.6"
serde = { version = "1", features = ["derive"] }
serde_json = "1"
env_logger = "0.11"
eframe = { version = "0.27", default-features = false, features = ["glow", "default_fonts"] }
egui = "0.27"
egui_extras = { version = "0.27", default-features = false }
egui_graphs = "0.20"
egui_plot = "0.27"
