[package]
name = "fontmatch"
version = "0.1.0"
edition = "2021"
publish = false

[dependencies]
fontdb = "*"
ttf-parser = "*"
rustybuzz = "*"
sys-locale = "*"
