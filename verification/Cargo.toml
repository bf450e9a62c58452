[package]
name = "lineartgen"
version = "0.1.0"
edition = "2021"
publish = false

[dependencies]
burn = { version = "=0.21.0", default-features = false, features = ["train"] }
burn-flex = "=0.21.0"
clap = { version = "=4.6.7", features = ["derive"] }
image = { version = "=0.25.10", default-features = false, features = ["png", "jpeg"] }
png = "=0.18.1"
pyo3 = { version = "=0.28.3", features = ["abi3-py310"] }
rand = "=0.10.3"
rand_distr = "=0.6.0"
rayon = "=1.12.0"
serde = { version = "=1.0.229", features = ["derive"] }
serde_json = "=1.0.154"
