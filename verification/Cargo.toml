[package]
name = "pathfinding3d"
version = "0.1.0"
edition = "2021"
publish = false

[dependencies]
glam = "*"
js-sys = "*"
wasm-bindgen = "*"
