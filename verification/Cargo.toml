[package]
name = "mslicer"
version = "0.1.0"
edition = "2021"
publish = false

[dependencies]
anyhow = "1"
clap = { version = "4", features = ["derive"] }
image = { version = "0.25", default-features = false, features = ["png"] }
nalgebra = "0.33"
ordered-float = "4"
rand = "0.9"
rayon = "1"
tracing = "0.1"
