[package]
name = "toy_aa"
version = "0.1.0"
edition = "2021"
publish = false
