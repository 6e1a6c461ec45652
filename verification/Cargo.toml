[package]
name = "exo_engine"
version = "0.1.0"
edition = "2021"
publish = false

[dependencies]
bytes = "1"
etagere = "*"
uuid = "1"
swash = "*"
erupt = "*"
