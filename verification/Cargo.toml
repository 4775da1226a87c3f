[package]
name = "lifegame"
version = "0.1.0"
edition = "2021"
publish = false

[dependencies]
ahash = "0.8"
rand = "0.9"
log = "0.4"
pixels = "0.15"
winit = "0.30"
