[package]
name = "punkt"
version = "1.0.3"
edition = "2021"
publish = false

[dependencies]
rustc-serialize = "0.3.25"
num = "0.4.3"
