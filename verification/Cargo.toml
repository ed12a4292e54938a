[package]
name = "xdg_mime"
version = "0.3.0"
edition = "2021"
publish = false

[dependencies]
dirs = "2.0"
glob = "0.3"
mime = "0.3"
unicase = "2.6"
