[package]
name = "radix2_fft"
version = "0.1.0"
edition = "2021"
publish = false
