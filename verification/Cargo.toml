[package]
name = "page_converter"
version = "0.1.0"
edition = "2021"
publish = false

[dependencies]
image = { version = "0.25", default-features = false }
fast_image_resize = "2.7"
wide = "0.7"
rayon = "1.10"
flume = "0.11"
log = "0.4"
ratatui = { version = "0.29", default-features = false }
