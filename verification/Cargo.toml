[package]
name = "named_tree"
version = "0.1.0"
edition = "2021"
publish = false

[dependencies]
globset = "0.4"
walkdir = "2"
