[package]
name = "flo_curves"
version = "0.8.0"
edition = "2021"
publish = false

[dependencies]
smallvec = "1"
