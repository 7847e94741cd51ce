[package]
name = "bevy_wgpu"
version = "0.1.0"
edition = "2021"
publish = false

[dependencies]
wgpu = "0.5"
log = "0.4"
