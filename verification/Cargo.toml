[package]
name = "vulkano"
version = "0.1.0"
edition = "2021"
publish = false

[dependencies]
ash = "*"
lazy_static = "*"
parking_lot = "*"
shared_library = "*"
vk-mem = "*"
