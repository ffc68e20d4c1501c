[package]
name = "nested_map"
version = "0.1.0"
edition = "2021"
publish = false

[dependencies]
crossbeam-epoch = "0.9"

[dev-dependencies]
rayon = "1"
