[package]
name = "zomboid_map"
version = "0.1.0"
edition = "2021"
publish = false

[dependencies]
memchr = "2"
bytes = "1"
ndarray = "0.16"
heapless = "0.8"
image = { version = "0.25", default-features = false, features = ["png"] }
imageproc = { version = "0.25", default-features = false }
dashmap = "6"
bytemuck = "1"
phf = { version = "0.11", features = ["macros"] }
fnv = "1"
frozen-collections = "*"
wide = "0.7"
rand = "0.9"
thiserror = "2"
tracing = "0.1"
clap = { version = "4", features = ["derive"] }
tokio = { version = "1", features = ["full"] }
futures = "0.3"
wgpu = "*"
winit = "0.30"
pollster = "0.4"
