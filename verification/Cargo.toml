[package]
name = "geokernel"
version = "0.1.0"
edition = "2021"
publish = false

[dependencies]
byteorder = "1"
rulinalg = "0.4"
time = "0.1"
