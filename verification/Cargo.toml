[package]
name = "pipemania"
version = "0.1.0"
edition = "2021"
publish = false

[dependencies]
rand = { version = "0.7", features = ["small_rng"] }
ezing = "0.2"
image = { version = "0.23", default-features = false, features = ["png"] }
winit = "0.24"
audio-engine = "0.1"
cfg-if = "1"
