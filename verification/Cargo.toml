[package]
name = "duckomp"
version = "0.1.0"
edition = "2021"
publish = false

[dependencies]
ahash = "0.8"
aho-corasick = "1"
bytemuck = { version = "1", features = ["derive"] }
memchr = "2"
memmap2 = "0.9"
num-bigint = "0.4"
num-traits = "0.2"
pollster = "0.3"
rayon = "1"
wgpu = { version = "22", default-features = false, features = ["wgsl"] }
