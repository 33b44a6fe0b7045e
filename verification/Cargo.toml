[package]
name = "treesize"
version = "0.1.0"
edition = "2021"
publish = false

[dependencies]
crossbeam-channel = "=0.5.17"
dirs = "=5.0.1"
egui = { version = "0.27", default-features = false, features = ["default_fonts"] }
rayon = "=1.12.0"
