[package]
name = "must"
version = "0.1.0"
edition = "2021"
publish = false

[dependencies]
clap = "2"
home = "0.5"
