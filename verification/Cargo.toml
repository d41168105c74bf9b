[package]
name = "mtmigrate"
version = "0.1.0"
edition = "2021"
publish = false

[dependencies]
bip_metainfo = "*"
clap = "2"
preferences = "*"
rayon = "1"
sha1 = "0.10"
walkdir = "2"
