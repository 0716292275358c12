[package]
name = "ori_rando_installer"
version = "0.1.0"
edition = "2021"
publish = false

[dependencies]
memchr = "*"
rand = "*"
rayon = "*"
