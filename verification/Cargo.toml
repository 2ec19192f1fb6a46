[package]
name = "palette_gen"
version = "0.1.0"
edition = "2021"
publish = false

[dependencies]
rand = "0.8"
clap = "2"
colored = "2"
crossbeam = "0.8"
image = { version = "0.24", default-features = false, features = ["png", "jpeg"] }
