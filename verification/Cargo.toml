[package]
name = "my_vr_program"
version = "0.1.0"
edition = "2021"
publish = false

[dependencies]
stereokit-rust = "=0.4.0-alpha.25"
winit = "*"
log = "*"
android_logger = "*"
pdfium-render = "*"
image = { version = "*", default-features = false, features = ["jpeg"] }
