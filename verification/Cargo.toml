[package]
name = "calc"
version = "0.1.0"
edition = "2021"

[dependencies]
ordered-float = "*"
