[package]
name = "mandelbrot"
version = "0.1.0"
edition = "2021"
publish = false

[dependencies]
actix-web = { version = "4", default-features = false, features = ["macros"] }
crossbeam = "0.8"
image = { version = "0.24", default-features = false, features = ["png"] }
num = "0.4"
