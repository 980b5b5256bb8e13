[package]
name = "graphics_engine"
version = "0.1.0"
edition = "2021"
publish = false

[dependencies]
byteorder = "1"
macroquad = { version = "0.4", default-features = false }
ndarray = "*"
