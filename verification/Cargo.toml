[package]
name = "qpick"
version = "0.1.0"
edition = "2021"
publish = false

[dependencies]
byteorder = "1"
fst = "0.3"
libc = "0.2"
serde = "1"
serde_derive = "1"
serde_json = "1"
