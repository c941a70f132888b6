[package]
name = "rustine"
version = "0.1.0"
edition = "2021"
publish = false

[dependencies]
regex = "1"
serde_json = "1"
quick-xml = "*"
memchr = "2"
smallvec = "1"
bumpalo = "3"
memmap2 = "*"
thiserror = "*"
nom = "7"
pyo3 = "*"
