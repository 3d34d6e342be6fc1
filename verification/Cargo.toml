[package]
name = "drawlings"
version = "0.1.0"
edition = "2021"
publish = false

[dependencies]
clap = "3"
image = "0.23"
plotters = { version = "0.3", default-features = false, features = ["bitmap_backend", "bitmap_encoder"] }
serde = "1"
serde_derive = "1"
toml = "0.5"
