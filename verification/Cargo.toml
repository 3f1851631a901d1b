[package]
name = "genetic_mkp"
version = "0.1.0"
edition = "2021"
publish = false

[dependencies]
rand = "=0.8.8"
clap = "=4.6.7"
colored = "=3.1.1"
