[package]
name = "image_playback"
version = "0.1.0"
edition = "2021"
publish = false

[dependencies]
sys-info = "*"
glium = "*"
image = "*"
