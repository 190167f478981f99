[package]
name = "hdd"
version = "0.1.0"
edition = "2021"
publish = false

[dependencies]
regex = "*"
clap = "*"
serde_json = "*"
separator = "*"
number_prefix = "*"
