[package]
name = "formatjson5"
version = "0.1.0"
edition = "2021"
publish = false

[dependencies]
anyhow = "1"
json5format = "*"
structopt = "0.3"
