[package]
name = "harletty"
version = "0.1.0"
edition = "2021"
publish = false

[dependencies]
log = "0.4"
rustfft = "6"
thiserror = "2"
