[package]
name = "nebchess"
version = "0.1.0"
edition = "2021"
publish = false

[dependencies]
pyrrhic-rs = "0.2"
