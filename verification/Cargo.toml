[package]
name = "disc_arena"
version = "0.1.0"
edition = "2021"
publish = false

[dependencies]
nannou = "=0.19.0"
