[package]
name = "gtlv_core"
version = "0.1.0"
edition = "2021"
publish = false

[dependencies]
image = { version = "*", default-features = false, features = ["png", "jpeg", "webp", "gif", "bmp"] }
tract-onnx = "*"
tract-nnef = "*"
anyhow = "*"
log = "*"
