[package]
name = "fractal"
version = "0.1.0"
edition = "2021"
publish = false

[dependencies]
eframe = { version = "*", default-features = false, features = ["glow", "x11", "default_fonts"] }
egui = "*"
atomic = "*"
bytemuck = { version = "*", features = ["derive"] }
rayon = "*"
itertools = "*"
mimalloc = "*"
