[package]
name = "rotated_array_set"
version = "0.1.0"
edition = "2021"
publish = false

[dependencies]
is_sorted = "0.1.1"
