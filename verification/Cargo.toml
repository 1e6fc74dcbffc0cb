[package]
name = "hld"
version = "0.1.0"
edition = "2021"
publish = false

[dependencies]
blake2-rfc = "*"
fs2 = "*"
glob = "*"
rayon = "*"
