[package]
name = "iks"
version = "0.7.0"
edition = "2021"
publish = false

[dependencies]
base64 = "*"
rustls = "*"
webpki-roots = "*"
rpassword = "*"
