[package]
name = "histdiff_core"
version = "0.1.0"
edition = "2021"
publish = false

[dependencies]
csv = "1"
dashmap = "6"
log = "0.4"
ndarray = "0.16"
polars = { version = "*", default-features = false, features = ["csv"] }
rayon = "1"
