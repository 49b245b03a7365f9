[package]
name = "kyber"
version = "0.1.0"
edition = "2021"
publish = false

[dependencies]
regex = "1"
structopt = "0.3"
walkdir = "2"
crates_io_api = "*"
shell = "*"
