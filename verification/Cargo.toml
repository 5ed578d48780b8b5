[package]
name = "interpreter"
version = "0.1.0"
edition = "2021"
publish = false

[dependencies]
clap = "2"
internment = "0.5"
logos = "0.12"
