[package]
name = "thesy"
version = "0.1.0"
edition = "2021"
publish = false

[dependencies]
egg = "0.6"
permutohedron = "0.2"
itertools = "0.9"
log = "0.4"
multimap = "0.8"
