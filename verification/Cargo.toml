[package]
name = "carrier"
version = "0.1.0"
edition = "2021"
publish = false
