[package]
name = "azdice"
version = "0.1.0"
edition = "2021"
publish = false

[dependencies]
rand = "0.5"
conrod = "0.61"
glium = "0.23"
winit = "0.18"
clipboard = "0.5"
find_folder = "0.3"
num = "0.2"
