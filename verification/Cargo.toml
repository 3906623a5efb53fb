[package]
name = "yadr"
version = "0.1.0"
edition = "2021"
publish = false

[dependencies]
jiff = "=0.2.39"
ra_ap_syntax = ">=0.0.295, <0.0.301"
tree-sitter = "=0.27.1"
tree-sitter-python = "=0.25.0"
tree-sitter-nix = "=0.3.0"
tree-sitter-typescript = "=0.23.2"
streaming-iterator = "=0.1.9"
regex-syntax = "=0.8.11"
miette = { version = "=7.6.0", features = ["fancy"] }
clap = { version = "=4.6.7", features = ["derive"] }
ignore = "=0.4.34"
camino = "=1.2.6"
