[package]
name = "tour_search"
version = "0.1.0"
edition = "2021"
publish = false

[dependencies]
clap = { version = "*", features = ["derive"] }
draw = "*"
env_logger = "*"
indicatif = "*"
libm = "*"
log = "*"
