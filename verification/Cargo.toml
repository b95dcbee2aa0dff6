[package]
name = "tectonicdb"
version = "0.1.0"
edition = "2021"
publish = false

[dependencies]
itertools = "0.12.1"
clap = "2.34.0"
