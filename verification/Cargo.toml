[package]
name = "chaikin"
version = "0.1.0"
edition = "2021"
publish = false

[dependencies]
raster = "0.2"
rand = "0.9"
minifb = "*"
macroquad = "0.4"
