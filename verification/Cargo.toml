[package]
name = "ono"
version = "0.1.0"
edition = "2021"
publish = false

[dependencies]
chrono = "0.4"
color-eyre = "0.6"
crossterm = "*"
dirs = "*"
env_logger = "0.11"
log = "0.4"
ratatui = "*"
