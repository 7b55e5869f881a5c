[package]
name = "beetree"
version = "0.1.0"
edition = "2021"
publish = false

[dependencies]
replace_with = "=0.1.8"
rand = "=0.9.5"
