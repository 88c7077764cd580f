[package]
name = "prcdsp"
version = "0.1.0"
edition = "2021"
publish = false

[dependencies]
rubato = "1.0.1"
audioadapter = "2"
audioadapter-buffers = "2"
