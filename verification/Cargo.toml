[package]
name = "prost_reflect"
version = "0.1.0"
edition = "2021"
publish = false

[dependencies]
prost = "*"
prost-types = "*"
