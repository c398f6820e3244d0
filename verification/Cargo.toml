[package]
name = "morse_audio"
version = "0.1.0"
edition = "2021"
publish = false

[dependencies]
clap = { version = "4", features = ["derive"] }
libpulse-binding = "2"
libpulse-simple-binding = "2"
