[package]
name = "kerr_march"
version = "0.1.0"
edition = "2021"
publish = false

[dependencies]
ndarray = "0.15"
hdf5 = "*"
ultraviolet = { version = "0.9", features = ["f64", "int"] }
nalgebra = "*"
image = { version = "*", default-features = false, features = ["png"] }
indicatif = "*"
clap = { version = "4", features = ["derive"] }
serde = { version = "1", features = ["derive"] }
serde_json = "1"
