[package]
name = "json5_nodes"
version = "0.1.0"
edition = "2021"
publish = false

[dependencies]
hashlink = "*"
pest = "2"
