[package]
name = "nbt_parser"
version = "0.1.0"
edition = "2021"
publish = false

[dependencies]
libflate = "=1.4.0"
