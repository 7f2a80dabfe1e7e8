[package]
name = "buildsys"
version = "0.1.0"
edition = "2021"
publish = false

[dependencies]
semver = "1"
sha2 = "0.10"
hex = "0.4"
rand = "0.8"
duct = "0.13"
walkdir = "2"
