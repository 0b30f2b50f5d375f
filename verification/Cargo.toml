[package]
name = "you_autocomplete_me"
version = "0.1.0"
edition = "2021"
publish = false

[dev-dependencies]
itertools = "*"
