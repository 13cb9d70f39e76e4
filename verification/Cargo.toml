[package]
name = "go"
version = "0.1.0"
edition = "2021"
publish = false

[dependencies]
sgf-parser = "*"
clap = "2"
alphabet = "*"
thiserror = "1"
