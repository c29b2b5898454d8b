[package]
name = "yolo_v2"
version = "0.1.0"
edition = "2021"
publish = false

[dependencies]
image = { version = "*", default-features = false }
menoh = "*"
ndarray = "*"
