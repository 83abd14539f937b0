[package]
name = "retune31"
version = "0.1.0"
edition = "2021"
publish = false

[dependencies]
midly = "*"
midir = "*"
