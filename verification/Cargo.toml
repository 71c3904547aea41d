[package]
name = "transitive_closure"
version = "0.1.0"
edition = "2021"
publish = false

[dependencies]
ascent = "=0.8.1"
