[package]
name = "rustypdf"
version = "0.1.0"
edition = "2021"
publish = false

[dependencies]
lopdf = "=0.46.0"
image = "=0.25.10"
gtk = "=0.18.2"
