[package]
name = "vrp_solver"
version = "0.1.0"
edition = "2021"
publish = false

[dependencies]
chrono = { version = "=0.4.45", default-features = false, features = ["std"] }
hashbrown = "=0.9.1"
