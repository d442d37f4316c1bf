[package]
name = "pathtracer"
version = "0.1.0"
edition = "2021"
publish = false

[dependencies]
gltf = "*"
rand = "0.8"
rayon = "1"
show-image = "*"
