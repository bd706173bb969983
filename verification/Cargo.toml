[package]
name = "logic_minimization"
version = "0.1.0"
edition = "2021"
publish = false

[dependencies]
clap = "*"
rand = "*"
