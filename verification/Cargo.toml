[package]
name = "fer_model"
version = "0.1.0"
edition = "2021"
publish = false

[dependencies]
clap = { version = "4", features = ["derive"] }
csv = "1"
nalgebra = "0.32"
GSL = "*"
