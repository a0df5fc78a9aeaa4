[package]
name = "kernel_mm"
version = "0.1.0"
edition = "2021"
publish = false

[dependencies]
bit_field = "*"
spin = "*"
talc = "*"
