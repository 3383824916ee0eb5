[package]
name = "cool_data"
version = "0.1.0"
edition = "2021"
publish = false

[dependencies]
parry3d = "*"
