[package]
name = "eon_fs"
version = "0.1.0"
edition = "2021"
publish = false

[dependencies]
smallvec = "=0.6.14"

[dev-dependencies]
rand = "=0.4.6"
