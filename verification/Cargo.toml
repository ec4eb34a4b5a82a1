[package]
name = "mandelbrot"
version = "0.1.0"
edition = "2021"
publish = false

[dependencies]
num = "0.1"
image = { version = "0.13", default-features = false, features = ["png_codec"] }
crossbeam = "0.2"
