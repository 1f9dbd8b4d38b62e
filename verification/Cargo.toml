[package]
name = "rs_ync"
version = "0.1.0"
edition = "2021"
publish = false

[dependencies]
sha2 = "*"
indicatif = "*"
text-colorizer = "*"
