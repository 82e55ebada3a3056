[package]
name = "sudoku"
version = "0.1.0"
edition = "2021"
publish = false

[dependencies]
itertools = "*"
rand = "0.9"
colored = "*"
clearscreen = "*"
crossterm = "*"
rdev = "*"
