[package]
name = "vosk_rust"
version = "0.1.0"
edition = "2021"
publish = false

[dependencies]
flate2 = "1"
matrixmultiply = "0.3"
rustfft = "6"
rustfst = "1"
