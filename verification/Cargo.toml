[package]
name = "datapack_gen"
version = "0.1.0"
edition = "2021"
publish = false

[dependencies]
walkdir = "2"
