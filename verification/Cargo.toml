[package]
name = "oxideav-source"
version = "0.1.5"
edition = "2021"
publish = false

[dependencies]
oxideav-core = "0.1"
