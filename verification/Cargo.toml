[package]
name = "re_finite_automata"
version = "0.1.0"
edition = "2021"
publish = false

[dependencies]
smallvec = "1"
try_index = "*"
