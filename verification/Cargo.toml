[package]
name = "csv2img"
version = "0.1.0"
edition = "2021"
publish = false

[dependencies]
rayon = "*"
humantime = "*"
image = { version = "*", default-features = false, features = ["png", "pnm"] }
clap = { version = "*", features = ["derive"] }
thiserror = "*"
