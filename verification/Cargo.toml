[package]
name = "neonwhite_seed_finder"
version = "0.1.0"
edition = "2021"
publish = false

[dependencies]
bit-set = "=0.8.0"
anyhow = "=1.0.104"
rayon = "=1.12.0"
ocl = "=0.19.7"
eframe = { version = "*", default-features = false, features = ["glow", "x11", "default_fonts"] }
