[package]
name = "vndf"
version = "0.1.0"
edition = "2021"
publish = false

[dependencies]
rand = "0.8"
time = "0.1"
getopts = "0.2"
rustc-serialize = "0.3"
