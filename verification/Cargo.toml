[package]
name = "raytracer"
version = "0.1.0"
edition = "2021"
publish = false

[dependencies]
image = { version = "0.24", default-features = false, features = ["png"] }
rayon = "1"
syn = { version = "1", features = ["full"] }
quote = "1"
proc-macro2 = "1"
