[package]
name = "tsplat"
version = "0.1.0"
edition = "2021"
publish = false

[dependencies]
anyhow = "1"
clap = { version = "4", features = ["derive"] }
crossterm = "0.28"
glam = "0.29"
libc = "0.2"
rayon = "1.10"
