[package]
name = "wordle_scorer"
version = "0.1.0"
edition = "2021"
publish = false

[dependencies]
csv = "=1.4.0"
indicatif = "0.17"
