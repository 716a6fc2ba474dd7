[package]
name = "sihat"
version = "0.1.0"
edition = "2021"
publish = false

[dependencies]
realfft = "3"
rustfft = "6"
rodio = { version = "0.21", default-features = false, features = ["wav"] }
