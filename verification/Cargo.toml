[package]
name = "sdfgen"
version = "0.1.0"
edition = "2021"
publish = false

[dependencies]
image = { version = "0.25", default-features = false, features = ["png"] }
num = "0.4"
rayon = "1"
getopts = "0.2"
byteorder = "1"
