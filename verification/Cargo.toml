[package]
name = "gst-plugin"
version = "0.1.0"
edition = "2021"
publish = false

[dependencies]
num-rational = { version = "=0.4.2", default-features = false }
libc = "=0.2.191"
