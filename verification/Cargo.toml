[package]
name = "race_group"
version = "0.1.0"
edition = "2021"
publish = false

[dependencies]
slab = "0.4"
futures-core = "0.3"
