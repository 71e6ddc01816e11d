[package]
name = "area_map"
version = "0.1.0"
edition = "2021"
publish = false

[dependencies]
fnv = "1.0"
nannou = { version = "0.18", default-features = false }
