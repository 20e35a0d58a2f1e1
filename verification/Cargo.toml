[package]
name = "vorbis_bits"
version = "0.1.0"
edition = "2021"
publish = false

[dependencies]
io_utils = "*"
copiablebuf = "*"
ogg = "*"

[dev-dependencies]
savagestr = "*"
