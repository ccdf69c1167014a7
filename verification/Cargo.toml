[package]
name = "crossword"
version = "0.1.0"
edition = "2021"
publish = false

[dependencies]
rand = "=0.8.8"
clap = "=2.34.0"
env_logger = "=0.9.3"
log = "=0.4.34"
