[package]
name = "bitonic_sort"
version = "0.1.0"
edition = "2021"
publish = false

[dependencies]
bytemuck = { version = "1", features = ["derive"] }
env_logger = "0.10"
futures-intrusive = "0.5"
log = "0.4"
rand = "0.8"
wgpu = "0.19"
