[package]
name = "airgraph"
version = "0.1.0"
edition = "2021"
publish = false

[dependencies]
geoutils = "*"
csv = "*"
rand = "*"
