[package]
name = "zk_sudoku"
version = "0.1.0"
edition = "2021"
publish = false

[dependencies]
sha2 = "0.10"
rand = "0.9"
tiny_http = "*"
ureq = "3"
crossterm = "*"
