[package]
name = "cow_core"
version = "0.1.0"
edition = "2021"
publish = false

[dependencies]
rand = "0.8"
getopts = "0.2"
crossterm = "0.28"
ratatui = "0.28"
unicode-width = "0.1"
