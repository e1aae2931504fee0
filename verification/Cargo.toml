[package]
name = "lookup_curve"
version = "0.1.0"
edition = "2021"
publish = false

[dependencies]
bevy_math = "=0.19.1"
bevy_reflect = { version = "=0.19.1", features = ["glam"] }
