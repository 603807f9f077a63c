[package]
name = "rainbow_svg_mask"
version = "0.1.0"
edition = "2021"
publish = false

[dependencies]
svgdom = "*"
yaml-rust = "*"
svgparser = "*"
