[package]
name = "embedded_graphics_readback"
version = "0.1.0"
edition = "2021"
publish = false

[dependencies]
embedded-graphics-core = "0.4"
embedded-graphics = "0.8"
