[package]
name = "nop-json"
version = "0.1.0"
edition = "2021"
publish = false

[dependencies]
numtoa = "0.2"
nop-json-derive = "*"
