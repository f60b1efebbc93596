[package]
name = "dem"
version = "0.1.0"
edition = "2021"
publish = false

[dependencies]
snap = "1"
