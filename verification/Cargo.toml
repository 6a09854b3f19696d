[package]
name = "puhu_color"
version = "0.1.0"
edition = "2021"
publish = false

[dependencies]
color_quant = "1"
csscolorparser = "*"
rayon = "1"
image = { version = "0.24", default-features = false, features = ["png"] }
