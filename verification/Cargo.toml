[package]
name = "rust_lisp"
version = "0.1.0"
edition = "2021"
publish = false

[dependencies]
rustc_apfloat = "0.2"
log = "0.4"
env_logger = "0.10"
structopt = "0.3"
