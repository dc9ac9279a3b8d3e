[package]
name = "puzzles"
version = "0.1.0"
edition = "2021"
publish = false

[dependencies]
itertools = "*"
lazy_static = "*"
log = "*"
mod_exp = "*"
ndarray = "*"
pretty_env_logger = "*"
regex = "*"
thiserror = "*"
