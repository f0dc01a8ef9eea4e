[package]
name = "minesweeper"
version = "0.1.0"
edition = "2021"
publish = false

[dependencies]
indexmap = "*"
rand = "0.8"
rand_xoshiro = "0.6"
structopt = "0.3"
termion = "*"
