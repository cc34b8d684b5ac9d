[package]
name = "typarena"
version = "0.1.0"
edition = "2021"
publish = false

[dependencies]
hashbrown = "*"
indexmap = "*"
sparse_map = "*"
