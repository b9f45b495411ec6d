[package]
name = "nexis-ml"
version = "0.5.2"
edition = "2021"
publish = false

[dependencies]
burn = { version = "=0.16.1", default-features = false, features = ["std", "ndarray", "wgpu", "autodiff"] }
cubecl = { version = "=0.4.0", default-features = false, features = ["std", "wgpu"] }
image = { version = "=0.25.10", default-features = false, features = ["png", "jpeg", "bmp"] }
serde = { version = "=1.0.229", features = ["derive"] }
serde_json = "=1.0.154"
toml = "=0.9.12"
