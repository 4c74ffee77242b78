[package]
name = "sweat"
version = "0.1.0"
edition = "2021"
publish = false

[dependencies]
flate2 = "1"
plotters = { version = "0.3", default-features = false, features = ["bitmap_backend", "bitmap_encoder", "histogram"] }
ureq = "2"
