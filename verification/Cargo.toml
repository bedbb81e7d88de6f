[package]
name = "raytracer"
version = "0.1.0"
edition = "2021"
publish = false

[dependencies]
ctrlc = "3"
image = { version = "0.21", default-features = false, features = ["png_codec"] }
pbr = "1"
rand = "0.6"
rayon = "1"
structopt = "0.2"
