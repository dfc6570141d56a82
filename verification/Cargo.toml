[package]
name = "virgola"
version = "0.1.0"
edition = "2021"
publish = false

[dependencies]
csv = "1"
chardetng = "0.1"
encoding_rs = "0.8"
glib = "*"
gtk4 = "*"
libadwaita = { version = "*", features = ["v1_5"] }
