[package]
name = "simd_kernels"
version = "0.1.0"
edition = "2021"
publish = false

[dev-dependencies]
pulp = { version = "=0.22.3", features = ["x86-v4"] }
x86_64 = { version = "0.15", default-features = false, features = ["instructions"] }
