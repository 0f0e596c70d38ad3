[package]
name = "fpp_compiler"
version = "0.1.0"
edition = "2021"
publish = false

[dependencies]
clap = "4"
yansi = "0.5"
