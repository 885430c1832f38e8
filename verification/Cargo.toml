[package]
name = "wfns_manager"
version = "0.1.0"
edition = "2021"
publish = false

[dependencies]
nanorand = "=0.8.0"
dirs = "=7.0.0"
opener = { version = "=0.9.0", features = ["reveal"] }
