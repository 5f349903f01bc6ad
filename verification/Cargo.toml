[package]
name = "histofit"
version = "0.1.0"
edition = "2021"
publish = false

[dependencies]
statrs = "*"
plotters = { version = "*", default-features = false, features = ["svg_backend", "histogram", "line_series", "point_series", "full_palette"] }
