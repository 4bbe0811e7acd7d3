[package]
name = "grass_verified"
version = "0.1.0"
edition = "2021"
publish = false

[dependencies]
rustc-hash = "2"
codemap = "0.1"
lasso = "0.7"
