[package]
name = "wgpu_remote"
version = "0.1.0"
edition = "2021"
publish = false

[dependencies]
hashbrown = "*"
weedle = "*"
