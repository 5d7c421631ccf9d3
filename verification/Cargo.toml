[package]
name = "session_codec"
version = "0.1.0"
edition = "2021"
publish = false

[dependencies]
bincode = "=0.5.9"
rustc-serialize = "=0.3.25"
