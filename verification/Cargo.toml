[package]
name = "res_search"
version = "0.1.0"
edition = "2021"
publish = false

[dependencies]
walkdir = "*"
regex = "*"
dirs = "*"
open = "*"
