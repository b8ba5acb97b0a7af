[package]
name = "grepr"
version = "0.1.0"
edition = "2021"
publish = false

[dependencies]
regex = "1"
colored = "2"
clap = "3"
glob = "0.3"
walkdir = "2"
thiserror = "1"
