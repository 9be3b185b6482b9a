[package]
name = "cutr"
version = "0.1.0"
edition = "2021"
publish = false

[dependencies]
clap = "2.33"
csv = "1"
regex = "1"
walkdir = "2"
