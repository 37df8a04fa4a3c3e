[package]
name = "rubik_lib"
version = "0.1.0"
edition = "2021"
publish = false

[dependencies]
smallvec = "1"
rand = "*"
itertools = "*"
