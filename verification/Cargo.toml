[package]
name = "leo_viz"
version = "0.1.0"
edition = "2021"
publish = false

[dependencies]
nalgebra = "0.33"
serde_json = "1"
ureq = "2"
