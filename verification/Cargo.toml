[package]
name = "sudoku_solver"
version = "0.2.2"
edition = "2021"
publish = false

[dependencies]
bit-iter = "*"
