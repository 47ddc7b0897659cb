[package]
name = "yog_modlist"
version = "0.1.0"
edition = "2021"
publish = false

[dependencies]
yog-api = "=0.109.0"
yog-graphics = "=0.11.0"
