[package]
name = "rt_core"
version = "0.1.0"
edition = "2021"

[dependencies]
anyhow = "1"
indicatif = "0.17"
rand = "0.9"
