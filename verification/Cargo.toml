[package]
name = "h3o"
version = "0.1.0"
edition = "2021"
publish = false

[dependencies]
geo = { version = "*", default-features = false }
