[package]
name = "rustycsv"
version = "0.4.6"
edition = "2021"
publish = false

[dependencies]
rayon = "*"
rustler = "*"
mimalloc = { version = "*", default-features = false }
thiserror = "*"
