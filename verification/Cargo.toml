[package]
name = "bytecode"
version = "0.1.0"
edition = "2021"
publish = false

[dependencies]
sharded-slab = "*"
