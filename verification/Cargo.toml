[package]
name = "wavio"
version = "0.1.0"
edition = "2021"
publish = false

[dependencies]
hound = "3.5"
ndarray = "0.16"
rayon = "1.10"
thiserror = "2.0"
