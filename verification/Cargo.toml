[package]
name = "bfield"
version = "0.1.0"
edition = "2021"
publish = false

[dependencies]
mmap-bitvec = "*"
murmurhash3 = "*"

[dev-dependencies]
tempfile = "*"
