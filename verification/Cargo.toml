[package]
name = "readfish_tools"
version = "0.1.0"
edition = "2021"
publish = false

[dependencies]
regex = "1"
natord = "1.0"
itertools = "0.11"
num-format = "0.4"
prettytable-rs = "0.10"
ndarray = "0.15"
