[package]
name = "caver"
version = "0.1.0"
edition = "2021"
publish = false

[dependencies]
ntfs-reader = "*"
sysinfo = "*"
rayon = "*"
