[package]
name = "neko_filer"
version = "0.1.0"
edition = "2021"
publish = false

[dependencies]
regex = "*"
base64 = "*"
chrono = "*"
curl = "*"
dirs = "*"
dunce = "*"
encoding_rs = "*"
tempdir = "*"
uuid = { version = "*", features = ["v4"] }
