[package]
name = "pminimal"
version = "0.1.0"
edition = "2021"
publish = false

[dependencies]
rustsat = { version = "=0.7.5", features = ["multiopt"] }
rustsat-batsat = "=0.7.5"
